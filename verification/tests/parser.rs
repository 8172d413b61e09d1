use componentflow::analyzer::analyze_timeline;
use componentflow::engine::actors::broadcast::Client;
use componentflow::engine::actors::AnyActor;
use componentflow::engine::scheduler::Destination;
use componentflow::engine::tokens::Token;
use componentflow::parser::actors_parser::{
    add_actor_implementation, import_default_actors, ActorKind, ActorRegistry,
};
use componentflow::parser::codes::{actor_offset, split_stamp};
use componentflow::parser::time_distribution_parser::{
    add_time_callback_implementation, import_default_time_callbacks, TimeRegistry,
};
use componentflow::parser::yaml_parser::{
    build_actors, connect_to_clients, find_actor, get_actors_indices, get_sources, parse_actor, parse_config,
    ActorConfig, ClientConfig, Config, LogConfig, ParseError, ParsedConfig, SpeedConfig,
};

fn actor(name: &str, kind: &str) -> ActorConfig {
    ActorConfig {
        name: name.to_string(),
        actor_type: kind.to_string(),
        source: false,
        product: None,
        speed: None,
        max_production: None,
        log: vec![],
        clients: vec![],
    }
}

fn edge(product: &str, name: &str, quantity: u32) -> ClientConfig {
    ClientConfig { product: product.to_string(), name: name.to_string(), quantity }
}

fn source(name: &str, product: &str, quantity: u32, time: u32, max: u32, clients: Vec<ClientConfig>) -> ActorConfig {
    ActorConfig {
        source: true,
        product: Some(product.to_string()),
        speed: Some(SpeedConfig { time, quantity }),
        max_production: Some(max),
        clients,
        ..actor(name, "SimpleSource")
    }
}

fn transformer(name: &str, product: &str, log: Vec<LogConfig>, clients: Vec<ClientConfig>) -> ActorConfig {
    ActorConfig { product: Some(product.to_string()), log, clients, ..actor(name, "SimpleActor") }
}

fn constant(delay: u64) -> LogConfig {
    LogConfig { distribution: "constant".to_string(), samples: vec![delay] }
}

fn line() -> ParsedConfig {
    ParsedConfig {
        components: vec!["a".to_string()],
        actors: vec![
            source("maker", "a", 1, 1, 2, vec![edge("a", "oven", 1)]),
            transformer("oven", "a", vec![constant(5)], vec![edge("a", "store", 1)]),
            actor("store", "SimpleSink"),
        ],
    }
}

fn parse(config: &ParsedConfig) -> Result<Config, ParseError> {
    parse_config(config, &import_default_actors(), &import_default_time_callbacks())
}

fn error(config: &ParsedConfig) -> ParseError {
    match parse(config) {
        Ok(_) => panic!("the description has no error"),
        Err(e) => e,
    }
}

fn run(config: &mut Config) -> Vec<Token> {
    config.supply_all();
    while !config.run(64) {}
    config.tokens()
}

#[test]
fn a_line_of_three_actors_is_built_as_described() {
    let config = parse(&line()).unwrap();
    assert_eq!(config.actors.len(), 3);
    assert_eq!(config.init_sources, vec![0]);
    assert_eq!(config.scheduler.pending(), 0);
    assert_eq!(config.scheduler.time(), 0);
    assert_eq!(config.loging_config.offset_id_actors, 10);
    assert_eq!(config.loging_config.num_elements(), 3);
    match &config.actors[0] {
        AnyActor::Source(s) => {
            assert_eq!((s.code, s.code_product, s.speed, s.max_production, s.place), (10, 1, (1, 1), 2, 0));
            assert_eq!(s.client.clients, vec![Client { code: 20, quantity: 1, actor: 1 }]);
        }
        _ => panic!("the first actor is a source"),
    }
    match &config.actors[1] {
        AnyActor::Transformer(t) => {
            assert_eq!((t.code, t.code_product, t.place), (20, 1, 1));
            assert_eq!(t.client.clients, vec![Client { code: 30, quantity: 1, actor: 2 }]);
            assert_eq!(t.delay_sampler.as_ref().unwrap().to_vec(), vec![5]);
        }
        _ => panic!("the second actor is a transformer"),
    }
    match &config.actors[2] {
        AnyActor::Sink(s) => assert_eq!(s.code, 30),
        _ => panic!("the third actor is a sink"),
    }
}

#[test]
fn names_and_rows_follow_the_description() {
    let config = parse(&line()).unwrap();
    let logs = &config.loging_config;
    assert_eq!(logs.name_from_code(21), Some("oven/a".to_string()));
    assert_eq!(logs.name_from_code(31), Some("store/a".to_string()));
    assert_eq!(logs.name_from_code(11), Some("maker/a".to_string()));
    assert_eq!(logs.name_from_code(41), None);
    assert_eq!(logs.name_from_code(22), None);
    assert_eq!(logs.name_from_code(20), None);
    assert_eq!(logs.actors_indices.get_by_left(&21), Some(&0));
    assert_eq!(logs.actors_indices.get_by_left(&31), Some(&1));
    assert_eq!(logs.actors_indices.len(), 2);
    assert_eq!(logs.components_codes.get_by_left("a"), Some(&1));
    assert_eq!(logs.actors_codes.get_by_left("store"), Some(&30));
}

#[test]
fn a_described_line_runs_and_is_analyzed() {
    let mut config = parse(&line()).unwrap();
    let tokens = run(&mut config);
    let timelines: Vec<Vec<(u64, u16)>> = tokens.iter().map(|t| t.timeline.clone()).collect();
    assert_eq!(timelines, vec![vec![(1, 21), (6, 31)], vec![(0, 21), (5, 31)]]);
    let stats = analyze_timeline(&tokens, 20, &config.loging_config).unwrap();
    assert_eq!(stats.lifetime(0), Some(10));
    assert_eq!(stats.lifetime_sq(0), Some(50));
    assert_eq!(stats.lifetime(1), Some(0));
    assert_eq!(stats.reentrance(0, 0), Some(1));
    assert_eq!(stats.reentrance(0, 1), Some(1));
    assert_eq!(stats.reentrance(1, 5), Some(1));
    assert_eq!(stats.reentrance(1, 6), Some(1));
    assert_eq!(stats.occupancy(0, 3), Some(2));
    assert_eq!(stats.occupancy(0, 5), Some(1));
    assert_eq!(stats.occupancy(0, 6), Some(0));
}

#[test]
fn two_runs_of_one_description_give_the_same() {
    let mut first = parse(&line()).unwrap();
    let mut second = parse(&line()).unwrap();
    let a: Vec<Vec<(u64, u16)>> = run(&mut first).into_iter().map(|t| t.timeline).collect();
    let b: Vec<Vec<(u64, u16)>> = run(&mut second).into_iter().map(|t| t.timeline).collect();
    assert_eq!(a, b);
}

#[test]
fn rows_are_numbered_as_the_stamps_first_occur() {
    let config = ParsedConfig {
        components: vec!["a".to_string(), "b".to_string()],
        actors: vec![
            source("one", "a", 1, 1, 1, vec![edge("a", "end", 1), edge("a", "mid", 1)]),
            source("two", "b", 1, 1, 1, vec![edge("b", "end", 1), edge("a", "end", 2)]),
            transformer("mid", "a", vec![], vec![edge("a", "end", 1)]),
            actor("end", "SimpleSink"),
        ],
    };
    let built = parse(&config).unwrap();
    let rows = &built.loging_config.actors_indices;
    assert_eq!(built.loging_config.offset_id_actors, 100);
    assert_eq!(rows.len(), 3);
    assert_eq!(rows.get_by_left(&401), Some(&0));
    assert_eq!(rows.get_by_left(&301), Some(&1));
    assert_eq!(rows.get_by_left(&402), Some(&2));
    assert_eq!(built.loging_config.name_from_code(402), Some("end/b".to_string()));
    assert_eq!(built.init_sources, vec![0, 1]);
}

#[test]
fn offset_is_ten_times_the_power_of_ten_at_least_the_components() {
    assert_eq!(actor_offset(0), Some(10));
    assert_eq!(actor_offset(1), Some(10));
    assert_eq!(actor_offset(2), Some(100));
    assert_eq!(actor_offset(10), Some(100));
    assert_eq!(actor_offset(11), Some(1000));
    assert_eq!(actor_offset(100), Some(1000));
    assert_eq!(actor_offset(101), Some(10000));
    assert_eq!(actor_offset(1000), Some(10000));
    assert_eq!(actor_offset(1001), None);
    assert_eq!(actor_offset(usize::MAX), None);
}

#[test]
fn a_stamp_tells_actor_and_product() {
    assert_eq!(split_stamp(21, 10), (20, 1));
    assert_eq!(split_stamp(1234, 100), (1200, 34));
    assert_eq!(split_stamp(7, 10), (0, 7));
    assert_eq!(split_stamp(300, 100), (300, 0));
}

#[test]
fn an_unknown_kind_of_actor_is_an_error() {
    let mut config = line();
    config.actors[2].actor_type = "Oven".to_string();
    let e = error(&config);
    assert!(matches!(&e, ParseError::UnknownActor(kind) if kind == "Oven"));
    assert_eq!(e.message(), "unknown actor: Oven");
}

#[test]
fn an_unknown_product_is_an_error() {
    let mut config = line();
    config.actors[1].product = Some("b".to_string());
    let e = error(&config);
    assert!(matches!(&e, ParseError::UnknownComponent(name) if name == "b"));
    assert_eq!(e.message(), "unknown component: b");
    let mut config = line();
    config.actors[0].clients[0].product = "c".to_string();
    assert!(matches!(error(&config), ParseError::UnknownComponent(name) if name == "c"));
}

#[test]
fn a_missing_key_is_an_error() {
    let mut config = line();
    config.actors[0].product = None;
    assert!(matches!(error(&config), ParseError::SectionMissing(name) if name == "product"));
    let mut config = line();
    config.actors[0].speed = None;
    assert!(matches!(error(&config), ParseError::SectionMissing(name) if name == "speed"));
    let mut config = line();
    config.actors[0].max_production = None;
    let e = error(&config);
    assert!(matches!(&e, ParseError::SectionMissing(name) if name == "max_production"));
    assert_eq!(e.message(), "section missing: max_production");
    let mut config = line();
    config.actors[1].clients[0].name = "shop".to_string();
    assert!(matches!(error(&config), ParseError::SectionMissing(name) if name == "shop"));
}

#[test]
fn an_unknown_time_distribution_is_an_error() {
    let mut config = line();
    config.actors[1].log[0].distribution = "gamma".to_string();
    let e = error(&config);
    assert!(matches!(&e, ParseError::UnknownTimeDistribution(name) if name == "gamma"));
    assert_eq!(e.message(), "unknown time distribution: gamma");
}

#[test]
fn what_else_is_wrong_is_a_wrong_format() {
    let mut config = line();
    config.actors[1].log.push(constant(1));
    assert!(matches!(error(&config), ParseError::WrongFormat(what) if what == "log"));
    let mut config = line();
    config.actors[2].source = true;
    assert!(matches!(error(&config), ParseError::WrongFormat(what) if what == "source"));
    let mut config = line();
    config.actors[2].clients.push(edge("a", "oven", 1));
    assert!(matches!(error(&config), ParseError::WrongFormat(what) if what == "clients"));
    let mut config = line();
    config.actors[1].clients[0].name = "maker".to_string();
    let e = error(&config);
    assert!(matches!(&e, ParseError::WrongFormat(what) if what == "client"));
    assert_eq!(e.message(), "wrong format: client");
    let mut config = line();
    config.components = (0..1001).map(|i| i.to_string()).collect();
    assert!(matches!(error(&config), ParseError::WrongFormat(what) if what == "components"));
    let mut config = line();
    config.components = (0..11).map(|i| if i == 0 { "a".to_string() } else { i.to_string() }).collect();
    config.actors = (0..65).map(|i| actor(&i.to_string(), "SimpleSink")).collect();
    assert!(matches!(error(&config), ParseError::WrongFormat(what) if what == "actors"));
    config.actors.pop();
    assert!(parse(&config).is_ok());
}

#[test]
fn the_first_error_is_the_one_reported() {
    let mut config = line();
    config.actors[0].clients[0].name = "nobody".to_string();
    config.actors[2].actor_type = "Oven".to_string();
    assert!(matches!(error(&config), ParseError::UnknownActor(_)));
    let mut config = line();
    config.actors[0].clients[0].name = "nobody".to_string();
    config.actors[1].clients[0].product = "zinc".to_string();
    assert!(matches!(error(&config), ParseError::SectionMissing(name) if name == "nobody"));
}

#[test]
fn errors_that_only_reading_a_file_gives_have_their_words() {
    assert_eq!(ParseError::FileNotFound.message(), "file not found");
    assert_eq!(ParseError::SectionWrongType("dt".to_string()).message(), "section of wrong type: dt");
}

#[test]
fn the_default_registries_know_the_kinds_that_come_with_the_library() {
    let kinds = import_default_actors();
    assert_eq!(kinds.find(&"SimpleActor".to_string()), Some(ActorKind::SimpleActor));
    assert_eq!(kinds.find(&"SimpleSink".to_string()), Some(ActorKind::SimpleSink));
    assert_eq!(kinds.find(&"SimpleSource".to_string()), Some(ActorKind::SimpleSource));
    assert_eq!(kinds.find(&"Other".to_string()), None);
    let times = import_default_time_callbacks();
    assert!(times.knows(&"log_normal".to_string()));
    assert!(times.knows(&"constant".to_string()));
    assert!(!times.knows(&"gamma".to_string()));
}

#[test]
fn what_is_registered_later_takes_precedence() {
    let mut kinds = ActorRegistry::new();
    assert_eq!(kinds.find(&"Oven".to_string()), None);
    add_actor_implementation(&mut kinds, "Oven".to_string(), ActorKind::SimpleActor);
    add_actor_implementation(&mut kinds, "Oven".to_string(), ActorKind::SimpleSink);
    assert_eq!(kinds.find(&"Oven".to_string()), Some(ActorKind::SimpleSink));
    let mut times = TimeRegistry::new();
    add_time_callback_implementation(&mut times, "gamma".to_string());
    assert!(times.knows(&"gamma".to_string()));
    let mut config = line();
    config.actors[2].actor_type = "Oven".to_string();
    config.actors[1].log[0].distribution = "gamma".to_string();
    assert!(parse_config(&config, &{ let mut k = import_default_actors(); add_actor_implementation(&mut k, "Oven".to_string(), ActorKind::SimpleSink); k }, &times).is_ok());
}

#[test]
fn the_steps_of_building_can_be_taken_one_by_one() {
    let config = line();
    let kinds = import_default_actors();
    let times = import_default_time_callbacks();
    let mut components = bimap::BiHashMap::new();
    components.insert("a".to_string(), 1u16);
    let (mut actors, codes) = match build_actors(&config.actors, &components, 10, &kinds, &times) {
        Ok(built) => built,
        Err(_) => panic!("the description has no error"),
    };
    assert_eq!(actors.len(), 3);
    assert_eq!(codes.get_by_left("oven"), Some(&20));
    assert_eq!(codes.get_by_right(&30), Some(&"store".to_string()));
    assert!(connect_to_clients(&config.actors, &mut actors, &components).is_ok());
    let rows = get_actors_indices(&config.actors, &actors, &components);
    assert_eq!(rows.get_by_left(&21), Some(&0));
    assert_eq!(rows.get_by_left(&31), Some(&1));
    assert_eq!(get_sources(&config.actors), vec![0]);
    assert_eq!(find_actor(&config.actors, &"store".to_string()), Some(2));
    assert_eq!(find_actor(&config.actors, &"shop".to_string()), None);
    match parse_actor(&config.actors[2], 70, 6, &components, &kinds, &times) {
        Ok(AnyActor::Sink(s)) => assert_eq!(s.code, 70),
        _ => panic!("the description is that of a sink"),
    }
}

#[test]
fn of_two_actors_of_one_name_the_later_has_the_name() {
    let mut config = line();
    config.actors.push(actor("store", "SimpleSink"));
    let built = parse(&config).unwrap();
    assert_eq!(built.loging_config.actors_codes.get_by_left("store"), Some(&40));
    assert_eq!(built.loging_config.name_from_code(41), Some("store/a".to_string()));
    assert_eq!(built.loging_config.name_from_code(31), None);
    match &built.actors[1] {
        AnyActor::Transformer(t) => assert_eq!(t.client.clients, vec![Client { code: 40, quantity: 1, actor: 3 }]),
        _ => panic!("the second actor is a transformer"),
    }
}

#[test]
fn a_run_after_a_reset_is_the_same_as_the_first() {
    let mut config = parse(&line()).unwrap();
    let first: Vec<Vec<(u64, u16)>> = run(&mut config).into_iter().map(|t| t.timeline).collect();
    assert_eq!(config.scheduler.time(), 6);
    assert_eq!(config.actors[0].total(), 2);
    config.reset();
    assert_eq!(config.scheduler.time(), 0);
    assert_eq!(config.scheduler.pending(), 0);
    assert_eq!(config.actors[0].total(), 0);
    assert_eq!(config.init_sources, vec![0]);
    let second: Vec<Vec<(u64, u16)>> = run(&mut config).into_iter().map(|t| t.timeline).collect();
    assert_eq!(first, second);
    assert_eq!(second, vec![vec![(1, 21), (6, 31)], vec![(0, 21), (5, 31)]]);
}

#[test]
fn supplying_at_the_start_exhausts_the_sources() {
    let mut config = parse(&line()).unwrap();
    config.supply_all();
    assert_eq!(config.scheduler.pending(), 2);
    assert_eq!(config.actors[0].total(), 2);
    assert_eq!(config.scheduler.time(), 0);
    assert!(config.tokens().is_empty());
}

#[test]
fn supplying_at_the_start_queues_every_batch_and_touches_nothing_else() {
    let mut description = line();
    description.actors[0] = source("maker", "a", 2, 3, 5, vec![edge("a", "oven", 1)]);
    description.actors.push(source("idle", "a", 0, 1, 4, vec![edge("a", "store", 1)]));
    description.actors.push(ActorConfig { source: false, ..source("spare", "a", 1, 1, 4, vec![edge("a", "store", 1)]) });
    let mut config = parse(&description).unwrap();
    assert_eq!(config.init_sources, vec![0, 3]);
    config.supply_all();
    assert_eq!(config.actors[0].total(), 5);
    assert_eq!(config.actors[3].total(), 0);
    assert_eq!(config.actors[4].total(), 0);
    let mut batches = Vec::new();
    while let Some(job) = config.scheduler.next_job() {
        batches.push((job.time, job.task.tokens.len(), job.task.destination));
    }
    assert_eq!(
        batches,
        vec![(0, 2, Destination::Broadcast(0)), (3, 2, Destination::Broadcast(0)), (6, 1, Destination::Broadcast(0))]
    );
}

#[test]
fn the_tokens_come_in_the_order_of_the_actors() {
    let mut description = line();
    description.actors[0] = source("maker", "a", 3, 1, 3, vec![edge("a", "oven", 2), edge("a", "store", 1)]);
    description.actors[1] = transformer("oven", "a", vec![constant(4)], vec![]);
    let mut config = parse(&description).unwrap();
    let tokens: Vec<Vec<(u64, u16)>> = run(&mut config).into_iter().map(|t| t.timeline).collect();
    // the oven keeps two tokens at its broadcast, the store has one
    assert_eq!(tokens, vec![vec![(0, 21)], vec![(0, 21)], vec![(0, 31)]]);
    assert_eq!(config.scheduler.time(), 4);
    assert!(config.tokens().is_empty());
}

#[test]
fn a_line_is_steady_and_flowing_a_loop_without_delay_is_not_steady() {
    let config = parse(&line()).unwrap();
    assert!(config.is_steady());
    assert!(config.is_flowing());
    let mut looped = line();
    looped.actors[1].clients.push(edge("a", "oven", 1));
    assert!(parse(&looped).unwrap().is_steady());
    looped.actors[1].log.clear();
    let config = parse(&looped).unwrap();
    assert!(!config.is_steady());
    assert!(config.is_flowing());
    let mut open_end = line();
    open_end.actors[1].clients.clear();
    assert!(!parse(&open_end).unwrap().is_flowing());
}

#[test]
fn when_a_flowing_network_is_idle_every_token_is_in_a_sink() {
    let mut config = parse(&line()).unwrap();
    assert!(config.is_flowing());
    config.supply_all();
    assert!(!config.run(3));
    while !config.run(3) {}
    assert!(config.is_flowing());
    assert_eq!(config.actors[2].total(), config.actors[0].total());
    assert_eq!(config.actors[2].total(), 2);
}
