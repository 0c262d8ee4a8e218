use planets_service::broker::SimpleBroker;
use planets_service::codec::CustomBigDecimal;
use planets_service::error::ApiError;
use planets_service::graphql::{resolve_details, DetailsInput, MassInput, Mutation, Query};
use planets_service::loader::DetailsBatchLoader;
use planets_service::persistence::Catalog;
use planets_service::planet::PlanetType;

fn dec(s: &str) -> CustomBigDecimal {
    CustomBigDecimal::parse(s).expect("literal should parse")
}

fn seed(repo: &mut Catalog, broker: &mut SimpleBroker, name: &str, radius: &str) -> i32 {
    let mutation = Mutation;
    mutation.create_planet(
        repo,
        broker,
        name.to_string(),
        PlanetType::DwarfPlanet,
        DetailsInput {
            mean_radius: dec(radius),
            mass: MassInput { mantissa: dec("1.3"), exponent: 22 },
            population: None,
        },
    )
}

#[test]
fn one_batched_call_regardless_of_requests() {
    let mut repo = Catalog::new();
    let mut broker = SimpleBroker::new(4);
    seed(&mut repo, &mut broker, "Pluto", "1188.3");
    seed(&mut repo, &mut broker, "Ceres", "473.0");
    seed(&mut repo, &mut broker, "Eris", "1163.0");
    let query = Query;
    let planets = query.planets(&repo);

    // many bodies, with duplicates: still exactly one gateway call
    let mut group = Vec::new();
    for p in &planets {
        group.push(p.duplicate());
        group.push(p.duplicate());
    }
    assert_eq!(repo.batch_calls, 0);
    let results = resolve_details(&group, &mut repo);
    assert_eq!(repo.batch_calls, 1);
    assert_eq!(results.len(), 6);
    for r in &results {
        assert!(r.is_ok());
    }

    // a second operation gets its own fresh loader and its own single call
    let results2 = resolve_details(&planets, &mut repo);
    assert_eq!(repo.batch_calls, 2);
    assert_eq!(results2.len(), 3);
}

#[test]
fn duplicate_requests_coalesce_in_the_loader() {
    let mut loader = DetailsBatchLoader::new();
    loader.request(7);
    loader.request(7);
    loader.request(9);
    loader.request(7);
    let mut repo = Catalog::new();
    loader.load(&mut repo);
    assert_eq!(repo.batch_calls, 1);
    assert_eq!(loader.get(7).unwrap_err(), ApiError::DetailsNotFound(7));
    assert_eq!(loader.get(9).unwrap_err(), ApiError::DetailsNotFound(9));
}

#[test]
fn missing_row_fails_alone() {
    let mut repo = Catalog::new();
    let mut broker = SimpleBroker::new(4);
    let a = seed(&mut repo, &mut broker, "Haumea", "816.0");
    let b = seed(&mut repo, &mut broker, "Makemake", "715.0");

    let mut loader = DetailsBatchLoader::new();
    loader.request(a);
    loader.request(b);
    loader.request(999);
    loader.load(&mut repo);
    assert_eq!(repo.batch_calls, 1);

    let got_a = loader.get(a).expect("row exists");
    assert_eq!(got_a.mean_radius().to_value(), "816.0");
    let got_b = loader.get(b).expect("row exists");
    assert_eq!(got_b.mean_radius().to_value(), "715.0");
    assert_eq!(loader.get(999).unwrap_err(), ApiError::DetailsNotFound(999));
}
