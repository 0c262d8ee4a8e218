use planets_service::broker::SimpleBroker;
use planets_service::codec::CustomBigDecimal;
use planets_service::graphql::{resolve_details, DetailsInput, MassInput, Mutation, Query};
use planets_service::persistence::Catalog;
use planets_service::planet::{Details, PlanetType};

fn dec(s: &str) -> CustomBigDecimal {
    CustomBigDecimal::parse(s).expect("literal should parse")
}

fn create(
    repo: &mut Catalog,
    broker: &mut SimpleBroker,
    name: &str,
    population: Option<&str>,
) -> i32 {
    let mutation = Mutation;
    mutation.create_planet(
        repo,
        broker,
        name.to_string(),
        PlanetType::TerrestrialPlanet,
        DetailsInput {
            mean_radius: dec("6371.0"),
            mass: MassInput { mantissa: dec("5.972"), exponent: 24 },
            population: population.map(dec),
        },
    )
}

#[test]
fn present_population_yields_the_inhabited_variant() {
    let mut repo = Catalog::new();
    let mut broker = SimpleBroker::new(4);
    create(&mut repo, &mut broker, "Earth", Some("7.53"));
    let query = Query;
    let planets = query.planets(&repo);
    let results = resolve_details(&planets, &mut repo);
    match results[0].as_ref().expect("details") {
        Details::InhabitedPlanetDetails(d) => {
            assert_eq!(d.mean_radius.to_value(), "6371.0");
            assert_eq!(d.population.to_value(), "7.53");
            assert_eq!(d.mass.to_value(), "5.972e24");
        },
        Details::UninhabitedPlanetDetails(_) => panic!("population was present"),
    }
}

#[test]
fn absent_population_yields_the_uninhabited_variant() {
    let mut repo = Catalog::new();
    let mut broker = SimpleBroker::new(4);
    create(&mut repo, &mut broker, "Venus", None);
    let query = Query;
    let planets = query.planets(&repo);
    let results = resolve_details(&planets, &mut repo);
    match results[0].as_ref().expect("details") {
        Details::UninhabitedPlanetDetails(d) => {
            assert_eq!(d.mean_radius.to_value(), "6371.0");
            assert_eq!(d.mass.to_value(), "5.972e24");
        },
        Details::InhabitedPlanetDetails(_) => panic!("no population was given"),
    }
}

#[test]
fn created_planet_is_persisted_and_findable() {
    let mut repo = Catalog::new();
    let mut broker = SimpleBroker::new(4);
    let id = create(&mut repo, &mut broker, "Kepler", None);
    assert_eq!(id, 1);
    let query = Query;
    let found = query.planet(&repo, "1").unwrap().expect("created body exists");
    assert_eq!(found.name().as_str(), "Kepler");
    assert!(found.is_rotating_around_sun());
}

#[test]
fn planet_type_names_round_trip() {
    for t in [
        PlanetType::TerrestrialPlanet,
        PlanetType::GasGiant,
        PlanetType::IceGiant,
        PlanetType::DwarfPlanet,
    ] {
        assert_eq!(PlanetType::from_str(t.as_str()), Some(t));
    }
    assert_eq!(PlanetType::from_str("Star"), None);
}
