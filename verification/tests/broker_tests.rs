use planets_service::broker::SimpleBroker;
use planets_service::codec::CustomBigDecimal;
use planets_service::graphql::{DetailsInput, MassInput, Mutation, Subscription};
use planets_service::persistence::Catalog;
use planets_service::planet::{Planet, PlanetType};

fn dec(s: &str) -> CustomBigDecimal {
    CustomBigDecimal::parse(s).expect("literal should parse")
}

fn create(repo: &mut Catalog, broker: &mut SimpleBroker, name: &str) -> i32 {
    let mutation = Mutation;
    mutation.create_planet(
        repo,
        broker,
        name.to_string(),
        PlanetType::IceGiant,
        DetailsInput {
            mean_radius: dec("1000.0"),
            mass: MassInput { mantissa: dec("1.0"), exponent: 20 },
            population: None,
        },
    )
}

#[test]
fn subscriber_before_create_observes_the_body() {
    let mut repo = Catalog::new();
    let mut broker = SimpleBroker::new(8);
    let subscription = Subscription;
    let sid = subscription.latest_planet(&mut broker);
    let id = create(&mut repo, &mut broker, "Triton");
    let seen = broker.poll(sid).expect("event delivered");
    assert_eq!(seen.id(), id);
    assert_eq!(seen.name().as_str(), "Triton");
    assert!(broker.poll(sid).is_none());
}

#[test]
fn subscriber_after_create_sees_nothing() {
    let mut repo = Catalog::new();
    let mut broker = SimpleBroker::new(8);
    create(&mut repo, &mut broker, "Charon");
    let subscription = Subscription;
    let late = subscription.latest_planet(&mut broker);
    assert!(broker.poll(late).is_none(), "no replay of earlier broadcasts");
}

#[test]
fn every_prior_subscriber_observes_each_create() {
    let mut repo = Catalog::new();
    let mut broker = SimpleBroker::new(8);
    let subscription = Subscription;
    let s1 = subscription.latest_planet(&mut broker);
    let s2 = subscription.latest_planet(&mut broker);
    create(&mut repo, &mut broker, "Io");
    create(&mut repo, &mut broker, "Europa");
    for sid in [s1, s2] {
        assert_eq!(broker.poll(sid).expect("first event").name().as_str(), "Io");
        assert_eq!(broker.poll(sid).expect("second event").name().as_str(), "Europa");
        assert!(broker.poll(sid).is_none());
    }
}

#[test]
fn slow_subscriber_misses_events_instead_of_stalling() {
    let mut broker = SimpleBroker::new(1);
    let sid = broker.subscribe();
    let a = Planet { id: 1, name: "Ganymede".to_string(), planet_type: PlanetType::DwarfPlanet };
    let b = Planet { id: 2, name: "Callisto".to_string(), planet_type: PlanetType::DwarfPlanet };
    broker.publish(&a);
    broker.publish(&b); // queue full: dropped for this subscriber
    assert_eq!(broker.poll(sid).expect("first event").name().as_str(), "Ganymede");
    assert!(broker.poll(sid).is_none());
}

#[test]
fn shutdown_drops_all_queues() {
    let mut broker = SimpleBroker::new(2);
    let sid = broker.subscribe();
    let a = Planet { id: 1, name: "Moon".to_string(), planet_type: PlanetType::DwarfPlanet };
    broker.publish(&a);
    assert_eq!(broker.subscriber_count(), 1);
    broker.shutdown();
    assert_eq!(broker.subscriber_count(), 0);
    let _ = sid;
}
