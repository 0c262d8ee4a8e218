//! The query, mutation and subscription surface: identifier translation,
//! record assembly, batched detail resolution, creation, and the broadcast of
//! freshly created bodies. Each resolver takes the catalog, broker or loader
//! it works against as an explicit handle; the transport around the library
//! owns those and passes them in per request.

use vstd::prelude::*;

use crate::broker::{spec_publish, SimpleBroker};
use crate::codec::{
    body_of, dec_wf, digit_of_char, digits_val, is_digit_char, lemma_digits_val_nonneg,
    lemma_digits_val_prefix_mono, mass_from_parts, sign_len, spec_mass, CustomBigDecimal,
};
use crate::error::ApiError;
use crate::loader::{
    batch_results, find_result, lemma_batch_lookup, loader_wf, DetailsBatchLoader,
};
use crate::persistence::{
    catalog_wf, find_details, find_planet, lemma_find_details_wf, Catalog, DetailsEntityModel,
    NewDetailsEntity, NewPlanetEntity, PlanetEntityModel,
};
use crate::planet::{
    details_wf, spec_details_of_entity, spec_planet_of_entity, Details, DetailsModel, Planet,
    PlanetModel, PlanetType,
};

verus! {

// ---------------------------------------------------------------------------
// Wire identifiers
// ---------------------------------------------------------------------------

/// The magnitude a wire identifier's digits denote.
pub open spec fn id_magnitude(s: Seq<char>) -> int {
    digits_val(body_of(s).map_values(|c: char| digit_of_char(c)))
}

/// The signed value a wire identifier denotes.
pub open spec fn id_value(s: Seq<char>) -> int {
    if s.len() > 0 && s[0] == '-' {
        -id_magnitude(s)
    } else {
        id_magnitude(s)
    }
}

/// A wire identifier that denotes an internal key: an optional sign, at
/// least one digit, nothing else, and a value in key range.
pub open spec fn id_str_valid(s: Seq<char>) -> bool {
    let t = body_of(s);
    &&& t.len() >= 1
    &&& forall|i: int| 0 <= i < t.len() ==> is_digit_char(#[trigger] t[i])
    &&& i32::MIN <= id_value(s) <= i32::MAX
}

/// Translate a wire identifier to the internal key. A malformed identifier
/// fails the request with `InvalidIdentifier`; it is never silently coerced.
pub fn parse_id(value: &str) -> (r: Result<i32, ApiError>)
    ensures
        match r {
            Ok(v) => id_str_valid(value@) && v as int == id_value(value@),
            Err(e) => !id_str_valid(value@) && e == ApiError::InvalidIdentifier,
        },
{
    let ghost s = value@;
    let n = value.unicode_len();
    let mut start: usize = 0;
    let mut minus = false;
    if n > 0 {
        let c0 = value.get_char(0);
        if c0 == '-' {
            minus = true;
            start = 1;
        } else if c0 == '+' {
            start = 1;
        }
    }
    proof {
        assert(sign_len(s) == start as int);
        assert(minus == (s.len() > 0 && s[0] == '-'));
    }
    let ghost t = body_of(s);
    let (ds, end) = crate::codec::scan_digits(value, n, start);
    if end == start || end < n {
        proof {
            if end == start {
                if t.len() >= 1 {
                    assert(t[0] == s[start as int]);
                }
            } else {
                assert(t[end - start] == s[end as int]);
            }
        }
        return Err(ApiError::InvalidIdentifier);
    }
    proof {
        assert forall|j: int| 0 <= j < t.len() implies is_digit_char(#[trigger] t[j]) by {
            assert(t[j] == s[start + j]);
        }
        assert forall|j: int|
            0 <= j < t.len() implies ds@[j] == t.map_values(|c: char| digit_of_char(c))[j] by {
            assert(t[j] == s[start + j]);
        }
        assert(ds@ =~= t.map_values(|c: char| digit_of_char(c)));
    }
    let ghost dv = t.map_values(|c: char| digit_of_char(c));
    let mut acc: u64 = 0;
    let mut i: usize = 0;
    while i < ds.len()
        invariant
            0 <= i <= ds@.len(),
            s == value@,
            t == body_of(s),
            t.len() >= 1,
            ds@ == dv,
            dv == t.map_values(|c: char| digit_of_char(c)),
            acc == digits_val(dv.take(i as int)),
            acc <= 0x8000_0000u64,
        decreases ds@.len() - i,
    {
        let d = ds[i];
        proof {
            lemma_digits_val_nonneg(dv.take(i as int));
            assert(dv.take(i + 1).drop_last() =~= dv.take(i as int));
            assert(dv.take(i + 1).last() == dv[i as int]);
        }
        acc = acc * 10 + (d as u64);
        if acc > 0x8000_0000u64 {
            proof {
                lemma_digits_val_prefix_mono(dv, i + 1, dv.len() as int);
                assert(dv.take(dv.len() as int) =~= dv);
                assert(id_magnitude(s) > 0x8000_0000);
            }
            return Err(ApiError::InvalidIdentifier);
        }
        i += 1;
    }
    proof {
        assert(dv.take(dv.len() as int) =~= dv);
        assert(acc == id_magnitude(s));
    }
    if minus {
        if acc == 0x8000_0000u64 {
            return Ok(i32::MIN);
        }
        let v: i32 = acc as i32;
        return Ok(0i32 - v);
    }
    if acc > 0x7FFF_FFFFu64 {
        return Err(ApiError::InvalidIdentifier);
    }
    Ok(acc as i32)
}

/// The wire form of an internal key: minus sign for a negative key, then its
/// decimal digits without leading zeros.
pub open spec fn spec_encode_id(id: i32) -> Seq<char> {
    let mag: int = if id < 0 {
        -(id as int)
    } else {
        id as int
    };
    (if id < 0 {
        seq!['-']
    } else {
        Seq::<char>::empty()
    }) + crate::codec::digit_chars(crate::codec::exp_digits(mag))
}

/// Render an internal key as its opaque wire identifier; `parse_id` takes it
/// back to the same key.
pub fn encode_id(id: i32) -> (r: String)
    ensures
        r@ == spec_encode_id(id),
        id_str_valid(r@),
        id_value(r@) == id,
{
    let ghost mag: int = if id < 0 {
        -(id as int)
    } else {
        id as int
    };
    let mut out = String::new();
    let m: usize;
    if id < 0 {
        out.append("-");
        proof {
            reveal_strlit("-");
        }
        m = (-(id as i64)) as usize;
    } else {
        m = id as usize;
    }
    proof {
        assert(m as int == mag);
    }
    crate::codec::push_exp_digits(&mut out, m);
    proof {
        let ds = crate::codec::exp_digits(mag);
        if mag == 0 {
            assert(ds =~= seq![0u8]);
            assert(ds.len() == 1);
            assert(ds.last() == 0);
            assert(ds.drop_last() =~= Seq::<u8>::empty());
            assert(digits_val(ds.drop_last()) == 0);
            assert(digits_val(ds) == digits_val(ds.drop_last()) * 10 + ds.last());
            assert(digits_val(ds) == 0);
        } else {
            crate::codec::lemma_nat_digits_val(mag);
        }
        assert(digits_val(ds) == mag);
        assert(crate::codec::seq_digits(ds));
        assert(out@ =~= spec_encode_id(id));
        let t = body_of(out@);
        assert(crate::codec::digit_chars(ds).len() == ds.len());
        assert(ds.len() >= 1);
        if id < 0 {
            assert(out@[0] == '-');
            assert(sign_len(out@) == 1);
        } else {
            assert(out@[0] == crate::codec::char_of_digit(ds[0]));
            crate::codec::lemma_digit_char_inverse(ds[0]);
            assert(sign_len(out@) == 0);
        }
        assert(t =~= crate::codec::digit_chars(ds));
        assert forall|i: int| 0 <= i < t.len() implies is_digit_char(#[trigger] t[i]) by {
            crate::codec::lemma_digit_char_inverse(ds[i]);
        }
        assert forall|i: int|
            0 <= i < t.len() implies t.map_values(|c: char| digit_of_char(c))[i] == ds[i] by {
            crate::codec::lemma_digit_char_inverse(ds[i]);
        }
        assert(t.map_values(|c: char| digit_of_char(c)) =~= ds);
        assert(id_magnitude(out@) == mag);
    }
    out
}

// ---------------------------------------------------------------------------
// Query surface
// ---------------------------------------------------------------------------

pub open spec fn opt_planet_view(o: Option<Planet>) -> Option<PlanetModel> {
    match o {
        Some(p) => Some(p@),
        None => None,
    }
}

pub open spec fn opt_entity_planet(e: Option<PlanetEntityModel>) -> Option<PlanetModel> {
    match e {
        Some(x) => Some(spec_planet_of_entity(x)),
        None => None,
    }
}

/// Shared lookup behind `planet` and `find_planet_by_id`: a missing record is
/// a normal `None`, a malformed identifier an `InvalidIdentifier` error.
pub fn find_planet_by_id_internal(repo: &Catalog, id: &str) -> (r: Result<
    Option<Planet>,
    ApiError,
>)
    ensures
        match r {
            Ok(o) => id_str_valid(id@) && opt_planet_view(o) == opt_entity_planet(
                find_planet(repo@.planets, id_value(id@) as i32),
            ),
            Err(e) => !id_str_valid(id@) && e == ApiError::InvalidIdentifier,
        },
{
    let key = match parse_id(id) {
        Ok(k) => k,
        Err(e) => {
            return Err(e);
        },
    };
    match repo.get(key) {
        Some(entity) => Ok(Some(Planet::from_entity(&entity))),
        None => Ok(None),
    }
}

/// The query root.
pub struct Query;

impl Query {
    /// Every body, in catalog order; no re-sorting.
    pub fn planets(&self, repo: &Catalog) -> (r: Vec<Planet>)
        ensures
            r@.len() == repo@.planets.len(),
            forall|i: int|
                0 <= i < r@.len() ==> #[trigger] r@[i]@ == spec_planet_of_entity(
                    repo@.planets[i],
                ),
    {
        let rows = repo.all();
        let mut out: Vec<Planet> = Vec::new();
        let mut i: usize = 0;
        while i < rows.len()
            invariant
                0 <= i <= rows@.len(),
                rows@.len() == repo@.planets.len(),
                forall|j: int| 0 <= j < rows@.len() ==> #[trigger] rows@[j]@ == repo@.planets[j],
                out@.len() == i,
                forall|j: int|
                    0 <= j < i ==> #[trigger] out@[j]@ == spec_planet_of_entity(repo@.planets[j]),
            decreases rows@.len() - i,
        {
            let p = Planet::from_entity(&rows[i]);
            out.push(p);
            i += 1;
        }
        out
    }

    /// One body by wire identifier, or `None`.
    pub fn planet(&self, repo: &Catalog, id: &str) -> (r: Result<Option<Planet>, ApiError>)
        ensures
            match r {
                Ok(o) => id_str_valid(id@) && opt_planet_view(o) == opt_entity_planet(
                    find_planet(repo@.planets, id_value(id@) as i32),
                ),
                Err(e) => !id_str_valid(id@) && e == ApiError::InvalidIdentifier,
            },
    {
        find_planet_by_id_internal(repo, id)
    }

    /// Cross-service entity resolution; same semantics as `planet`.
    pub fn find_planet_by_id(&self, repo: &Catalog, id: &str) -> (r: Result<
        Option<Planet>,
        ApiError,
    >)
        ensures
            match r {
                Ok(o) => id_str_valid(id@) && opt_planet_view(o) == opt_entity_planet(
                    find_planet(repo@.planets, id_value(id@) as i32),
                ),
                Err(e) => !id_str_valid(id@) && e == ApiError::InvalidIdentifier,
            },
    {
        find_planet_by_id_internal(repo, id)
    }
}

// ---------------------------------------------------------------------------
// Batched detail resolution
// ---------------------------------------------------------------------------

/// What resolving one body's details must yield: the record its detail row
/// denotes, or `DetailsNotFound` when the row is missing.
pub open spec fn details_outcome(rows: Seq<DetailsEntityModel>, id: i32) -> Result<
    DetailsModel,
    ApiError,
> {
    match find_details(rows, id) {
        Some(e) => Ok(spec_details_of_entity(e)),
        None => Err(ApiError::DetailsNotFound(id)),
    }
}

pub open spec fn res_details_view(r: Result<Details, ApiError>) -> Result<DetailsModel, ApiError> {
    match r {
        Ok(d) => Ok(d@),
        Err(e) => Err(e),
    }
}

/// Resolve the details of every listed body through one fresh loader:
/// however many bodies there are and however often an identifier repeats,
/// exactly one batched gateway call is made, and a body whose detail row is
/// missing fails alone without disturbing its siblings.
pub fn resolve_details(planets: &Vec<Planet>, repo: &mut Catalog) -> (r: Vec<
    Result<Details, ApiError>,
>)
    requires
        old(repo)@.batch_calls < u64::MAX,
    ensures
        final(repo)@.planets == old(repo)@.planets,
        final(repo)@.details == old(repo)@.details,
        final(repo)@.next_id == old(repo)@.next_id,
        final(repo)@.batch_calls == old(repo)@.batch_calls + 1,
        r@.len() == planets@.len(),
        forall|i: int|
            0 <= i < r@.len() ==> res_details_view(#[trigger] r@[i]) == details_outcome(
                old(repo)@.details,
                planets@[i]@.id,
            ),
        catalog_wf(old(repo)@) ==> forall|i: int|
            0 <= i < r@.len() ==> match #[trigger] r@[i] {
                Ok(d) => details_wf(d@),
                Err(_) => true,
            },
{
    let mut loader = DetailsBatchLoader::new();
    let mut i: usize = 0;
    while i < planets.len()
        invariant
            0 <= i <= planets@.len(),
            !loader@.loaded,
            loader_wf(loader@),
            forall|j: int| 0 <= j < i ==> loader@.keys.contains(#[trigger] planets@[j]@.id),
        decreases planets@.len() - i,
    {
        let ghost keys0 = loader@.keys;
        planets[i].details(&mut loader);
        proof {
            assert forall|j: int|
                0 <= j < i + 1 implies loader@.keys.contains(#[trigger] planets@[j]@.id) by {
                if j < i {
                    let w = choose|w: int| 0 <= w < keys0.len() && keys0[w] == planets@[j]@.id;
                    if loader@.keys != keys0 {
                        assert(loader@.keys == keys0.push(planets@[i as int]@.id));
                        assert(loader@.keys[w] == keys0[w]);
                    }
                    assert(loader@.keys.contains(planets@[j]@.id));
                }
            }
        }
        i += 1;
    }
    loader.load(repo);
    let ghost rows = old(repo)@.details;
    let ghost keys = loader@.keys;
    let mut out: Vec<Result<Details, ApiError>> = Vec::new();
    let mut k: usize = 0;
    while k < planets.len()
        invariant
            0 <= k <= planets@.len(),
            loader@.loaded,
            loader@.results == batch_results(rows, keys),
            forall|j: int| 0 <= j < planets@.len() ==> keys.contains(#[trigger] planets@[j]@.id),
            out@.len() == k,
            forall|j: int|
                0 <= j < k ==> res_details_view(#[trigger] out@[j]) == details_outcome(
                    rows,
                    planets@[j]@.id,
                ),
        decreases planets@.len() - k,
    {
        let id = planets[k].id();
        let res = loader.get(id);
        proof {
            lemma_batch_lookup(rows, keys, id);
            assert(keys.contains(planets@[k as int]@.id));
        }
        out.push(res);
        k += 1;
    }
    proof {
        if catalog_wf(old(repo)@) {
            assert forall|i: int|
                0 <= i < out@.len() implies match #[trigger] out@[i] {
                Ok(d) => details_wf(d@),
                Err(_) => true,
            } by {
                lemma_find_details_wf(rows, planets@[i]@.id);
            }
        }
    }
    out
}

// ---------------------------------------------------------------------------
// Mutation surface
// ---------------------------------------------------------------------------

/// A planet's mass is a large number: clients pass a mantissa and an
/// exponent, the base being ten. The mantissa arrives here already decoded
/// from its wire form.
pub struct MassInput {
    pub mantissa: CustomBigDecimal,
    pub exponent: u8,
}

/// The details of a body to create; the population is optional and decides
/// the variant of the stored record.
pub struct DetailsInput {
    pub mean_radius: CustomBigDecimal,
    pub mass: MassInput,
    pub population: Option<CustomBigDecimal>,
}

pub open spec fn details_input_wf(d: DetailsInput) -> bool {
    &&& dec_wf(d.mean_radius@)
    &&& dec_wf(d.mass.mantissa@)
    &&& match d.population {
        Some(p) => dec_wf(p@),
        None => true,
    }
}

/// The detail row a creation request persists.
pub open spec fn spec_new_detail_row(d: DetailsInput, id: i32) -> DetailsEntityModel {
    DetailsEntityModel {
        planet_id: id,
        mean_radius: d.mean_radius@,
        mass: spec_mass(d.mass.mantissa@, d.mass.exponent as int),
        population: match d.population {
            Some(p) => Some(p@),
            None => None,
        },
    }
}

/// The mutation root.
pub struct Mutation;

impl Mutation {
    /// Create a body: materialize the mass from mantissa and exponent,
    /// persist the body with its detail row under the next free identifier,
    /// broadcast the created body to every live subscriber, and return the
    /// assigned identifier.
    pub fn create_planet(
        &self,
        repo: &mut Catalog,
        broker: &mut SimpleBroker,
        name: String,
        planet_type: PlanetType,
        details: DetailsInput,
    ) -> (r: i32)
        requires
            crate::persistence::catalog_wf(old(repo)@),
            old(repo)@.next_id < i32::MAX,
            details_input_wf(details),
        ensures
            r == old(repo)@.next_id,
            final(repo)@.planets == old(repo)@.planets.push(
                PlanetEntityModel { id: r, name: name@, planet_type },
            ),
            final(repo)@.details == old(repo)@.details.push(spec_new_detail_row(details, r)),
            find_planet(final(repo)@.planets, r) == Some(
                PlanetEntityModel { id: r, name: name@, planet_type },
            ),
            find_details(final(repo)@.details, r) == Some(spec_new_detail_row(details, r)),
            final(repo)@.next_id == old(repo)@.next_id + 1,
            final(repo)@.batch_calls == old(repo)@.batch_calls,
            crate::persistence::catalog_wf(final(repo)@),
            final(broker)@.queues == spec_publish(
                old(broker)@.queues,
                PlanetModel { id: r, name: name@, planet_type },
                old(broker)@.capacity,
            ),
            final(broker)@.capacity == old(broker)@.capacity,
    {
        let DetailsInput { mean_radius, mass: mass_input, population } = details;
        let mass = mass_from_parts(&mass_input.mantissa, mass_input.exponent);
        let new_planet = NewPlanetEntity { name, planet_type };
        let new_details = NewDetailsEntity { mean_radius, mass, population };
        let created = repo.create(new_planet, new_details);
        let planet = Planet::from_entity(&created);
        broker.publish(&planet);
        created.id
    }
}

// ---------------------------------------------------------------------------
// Subscription surface
// ---------------------------------------------------------------------------

/// The subscription root.
pub struct Subscription;

impl Subscription {
    /// Open the stream of freshly created bodies: an independent subscription
    /// that starts empty and receives every body created while it lives, as
    /// far as its queue has room. The returned key addresses the stream in
    /// later polls.
    pub fn latest_planet(&self, broker: &mut SimpleBroker) -> (sid: usize)
        ensures
            sid == old(broker)@.queues.len(),
            final(broker)@.queues == old(broker)@.queues.push(Seq::<PlanetModel>::empty()),
            final(broker)@.capacity == old(broker)@.capacity,
    {
        broker.subscribe()
    }
}

} // verus!
