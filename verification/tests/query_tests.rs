use planets_service::broker::SimpleBroker;
use planets_service::codec::CustomBigDecimal;
use planets_service::error::ApiError;
use planets_service::graphql::{encode_id, parse_id, resolve_details, DetailsInput, MassInput, Mutation, Query};
use planets_service::persistence::Catalog;
use planets_service::planet::{Details, PlanetType};

fn dec(s: &str) -> CustomBigDecimal {
    CustomBigDecimal::parse(s).expect("literal should parse")
}

fn create_uninhabited(
    repo: &mut Catalog,
    broker: &mut SimpleBroker,
    name: &str,
    planet_type: PlanetType,
    radius: &str,
    mantissa: &str,
    exponent: u8,
) -> i32 {
    let mutation = Mutation;
    mutation.create_planet(
        repo,
        broker,
        name.to_string(),
        planet_type,
        DetailsInput {
            mean_radius: dec(radius),
            mass: MassInput { mantissa: dec(mantissa), exponent },
            population: None,
        },
    )
}

/// The solar system, in catalog order; identifiers run from 1 (Mercury) to 8
/// (Neptune).
fn seeded_catalog() -> (Catalog, SimpleBroker) {
    let mut repo = Catalog::new();
    let mut broker = SimpleBroker::new(16);
    let t = PlanetType::TerrestrialPlanet;
    let g = PlanetType::GasGiant;
    let i = PlanetType::IceGiant;
    create_uninhabited(&mut repo, &mut broker, "Mercury", t, "2439.7", "3.285", 23);
    create_uninhabited(&mut repo, &mut broker, "Venus", t, "6051.8", "4.867", 24);
    create_uninhabited(&mut repo, &mut broker, "Earth", t, "6371.0", "5.972", 24);
    create_uninhabited(&mut repo, &mut broker, "Mars", t, "3389.5", "6.39", 23);
    create_uninhabited(&mut repo, &mut broker, "Jupiter", g, "69911.0", "1.898", 27);
    create_uninhabited(&mut repo, &mut broker, "Saturn", g, "58232.0", "5.683", 26);
    create_uninhabited(&mut repo, &mut broker, "Uranus", i, "25362.0", "8.681", 25);
    create_uninhabited(&mut repo, &mut broker, "Neptune", i, "24622.0", "1.024", 26);
    (repo, broker)
}

fn radius_of(details: &Details) -> String {
    details.mean_radius().to_value()
}

#[test]
fn test_planets() {
    let (mut repo, _broker) = seeded_catalog();
    let query = Query;
    let planets = query.planets(&repo);
    assert_eq!(planets.len(), 8);
    let results = resolve_details(&planets, &mut repo);

    assert_eq!(planets[0].name().as_str(), "Mercury");
    assert_eq!(planets[0].planet_type(), PlanetType::TerrestrialPlanet);
    assert_eq!(radius_of(results[0].as_ref().expect("details")), "2439.7");

    assert_eq!(planets[2].name().as_str(), "Earth");
    assert_eq!(planets[2].planet_type(), PlanetType::TerrestrialPlanet);
    assert_eq!(radius_of(results[2].as_ref().expect("details")), "6371.0");

    assert_eq!(planets[4].name().as_str(), "Jupiter");
    assert_eq!(planets[4].planet_type(), PlanetType::GasGiant);
    assert_eq!(radius_of(results[4].as_ref().expect("details")), "69911.0");

    assert_eq!(planets[7].name().as_str(), "Neptune");
    assert_eq!(planets[7].planet_type(), PlanetType::IceGiant);
    assert_eq!(radius_of(results[7].as_ref().expect("details")), "24622.0");
}

#[test]
fn test_planet_by_id() {
    let (mut repo, _broker) = seeded_catalog();
    let query = Query;
    let planet = query
        .planet(&repo, "3")
        .expect("identifier is valid")
        .expect("Earth exists");
    assert_eq!(planet.id(), 3);
    assert_eq!(planet.name().as_str(), "Earth");
    assert_eq!(planet.planet_type(), PlanetType::TerrestrialPlanet);
    let group = vec![planet];
    let results = resolve_details(&group, &mut repo);
    assert_eq!(radius_of(results[0].as_ref().expect("details")), "6371.0");
}

#[test]
fn test_variable() {
    let (mut repo, _broker) = seeded_catalog();
    let query = Query;
    let planet_id = "5";
    let planet = query
        .planet(&repo, planet_id)
        .expect("identifier is valid")
        .expect("Jupiter exists");
    assert_eq!(planet.name().as_str(), "Jupiter");
    assert_eq!(planet.planet_type(), PlanetType::GasGiant);
    let group = vec![planet];
    let results = resolve_details(&group, &mut repo);
    assert_eq!(radius_of(results[0].as_ref().expect("details")), "69911.0");
}

#[test]
fn missing_planet_is_none_not_error() {
    let (repo, _broker) = seeded_catalog();
    let query = Query;
    assert!(query.planet(&repo, "9").expect("identifier is valid").is_none());
}

#[test]
fn invalid_identifier_fails_the_request() {
    let (repo, _broker) = seeded_catalog();
    let query = Query;
    assert_eq!(query.planet(&repo, "abc").unwrap_err(), ApiError::InvalidIdentifier);
    assert_eq!(query.planet(&repo, "").unwrap_err(), ApiError::InvalidIdentifier);
    assert_eq!(
        query.planet(&repo, "3000000000").unwrap_err(),
        ApiError::InvalidIdentifier
    );
    assert_eq!(
        query.find_planet_by_id(&repo, "1.5").unwrap_err(),
        ApiError::InvalidIdentifier
    );
}

#[test]
fn federation_lookup_matches_plain_lookup() {
    let (repo, _broker) = seeded_catalog();
    let query = Query;
    let a = query.planet(&repo, "4").unwrap().unwrap();
    let b = query.find_planet_by_id(&repo, "4").unwrap().unwrap();
    assert_eq!(a.id(), b.id());
    assert_eq!(a.name(), b.name());
    assert_eq!(a.planet_type(), b.planet_type());
    assert_eq!(a.name().as_str(), "Mars");
}

#[test]
fn parse_id_accepts_signs_and_bounds() {
    assert_eq!(parse_id("3").unwrap(), 3);
    assert_eq!(parse_id("+8").unwrap(), 8);
    assert_eq!(parse_id("-17").unwrap(), -17);
    assert_eq!(parse_id("0042").unwrap(), 42);
    assert_eq!(parse_id("2147483647").unwrap(), i32::MAX);
    assert_eq!(parse_id("-2147483648").unwrap(), i32::MIN);
    assert_eq!(parse_id("2147483648").unwrap_err(), ApiError::InvalidIdentifier);
    assert_eq!(parse_id("-2147483649").unwrap_err(), ApiError::InvalidIdentifier);
}

#[test]
fn identifier_wire_round_trip() {
    for id in [0, 1, 3, 42, 1000, -7, i32::MAX, i32::MIN] {
        let wire = encode_id(id);
        assert_eq!(parse_id(&wire).unwrap(), id);
    }
    assert_eq!(encode_id(3), "3");
    assert_eq!(encode_id(-17), "-17");
    assert_eq!(encode_id(0), "0");
}
