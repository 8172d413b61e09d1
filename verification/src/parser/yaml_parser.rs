//! The description of a network, and the network built from it.

use crate::engine::actors::broadcast::{lemma_upserted_members, upserted, Broadcast, Client};
use crate::engine::actors::simple_actor::{SimpleActor, TransformerView};
use crate::engine::actors::simple_sink::{SimpleSink, SinkView};
use crate::engine::actors::simple_source::{SimpleSource, SourceView};
use crate::engine::actors::{ActorView, AnyActor};
use crate::parser::actors_parser::{kind_of, ActorKind, ActorRegistry};
use crate::engine::histories::{distinct_actor_codes, lemma_empty_unrepeated};
use crate::engine::scheduler::{JobView, Scheduler};
use crate::engine::simulation::{
    actor_ok, edge_ok, network_wf, same_shape, views, world_of, World,
};
use crate::parser::codes::{
    actor_offset, code_count, code_of, code_pairs, lemma_offset_above, name_of, new_code_map,
    new_row_map, numbered, offset_for, pair_code, pair_row, paired, row_count, row_of, row_pairs,
    split_stamp, stamp_actor, stamp_product,
};
use crate::parser::time_distribution_parser::{has_label, TimeRegistry};
use crate::utils::distributions::CyclicSampler;
use bimap::BiHashMap;
use vstd::prelude::*;
use vstd::string::StringExecFns;

verus! {

/// What can be wrong with a description.
#[derive(Debug)]
pub enum ParseError {
    /// The description cannot be opened.
    FileNotFound,
    /// A key that is needed is absent.
    SectionMissing(String),
    /// A key holds a value of the wrong kind.
    SectionWrongType(String),
    /// An actor names a product that is not among the components.
    UnknownComponent(String),
    /// An actor is of a kind that is not registered.
    UnknownActor(String),
    /// A log names a time distribution that is not registered.
    UnknownTimeDistribution(String),
    /// Something else is not as it must be.
    WrongFormat(String),
}

/// The mathematical value of a [`ParseError`].
pub enum ErrorView {
    FileNotFound,
    SectionMissing(Seq<char>),
    SectionWrongType(Seq<char>),
    UnknownComponent(Seq<char>),
    UnknownActor(Seq<char>),
    UnknownTimeDistribution(Seq<char>),
    WrongFormat(Seq<char>),
}

impl View for ParseError {
    type V = ErrorView;

    open spec fn view(&self) -> ErrorView {
        match self {
            ParseError::FileNotFound => ErrorView::FileNotFound,
            ParseError::SectionMissing(name) => ErrorView::SectionMissing(name@),
            ParseError::SectionWrongType(name) => ErrorView::SectionWrongType(name@),
            ParseError::UnknownComponent(name) => ErrorView::UnknownComponent(name@),
            ParseError::UnknownActor(name) => ErrorView::UnknownActor(name@),
            ParseError::UnknownTimeDistribution(name) => ErrorView::UnknownTimeDistribution(name@),
            ParseError::WrongFormat(detail) => ErrorView::WrongFormat(detail@),
        }
    }
}

impl ParseError {
    /// The error in words: what is wrong, a colon, and with what.
    pub fn message(&self) -> (text: String)
        ensures
            text@ == match self@ {
                ErrorView::FileNotFound => "file not found"@,
                ErrorView::SectionMissing(name) => "section missing: "@ + name,
                ErrorView::SectionWrongType(name) => "section of wrong type: "@ + name,
                ErrorView::UnknownComponent(name) => "unknown component: "@ + name,
                ErrorView::UnknownActor(name) => "unknown actor: "@ + name,
                ErrorView::UnknownTimeDistribution(name) => "unknown time distribution: "@ + name,
                ErrorView::WrongFormat(detail) => "wrong format: "@ + detail,
            },
    {
        match self {
            ParseError::FileNotFound => String::from_str("file not found"),
            ParseError::SectionMissing(name) => String::from_str("section missing: ").concat(
                name.as_str(),
            ),
            ParseError::SectionWrongType(name) => String::from_str(
                "section of wrong type: ",
            ).concat(name.as_str()),
            ParseError::UnknownComponent(name) => String::from_str("unknown component: ").concat(
                name.as_str(),
            ),
            ParseError::UnknownActor(name) => String::from_str("unknown actor: ").concat(
                name.as_str(),
            ),
            ParseError::UnknownTimeDistribution(name) => String::from_str(
                "unknown time distribution: ",
            ).concat(name.as_str()),
            ParseError::WrongFormat(detail) => String::from_str("wrong format: ").concat(
                detail.as_str(),
            ),
        }
    }
}

/// How fast a source makes tokens: `quantity` tokens every `time` units of time.
pub struct SpeedConfig {
    pub time: u32,
    pub quantity: u32,
}

/// A time distribution by name, with the delays drawn from it, in time bins.
pub struct LogConfig {
    pub distribution: String,
    pub samples: Vec<u64>,
}

/// An edge to a client: the product that flows, the client's name and its share.
pub struct ClientConfig {
    pub product: String,
    pub name: String,
    pub quantity: u32,
}

/// The description of an actor.
pub struct ActorConfig {
    pub name: String,
    pub actor_type: String,
    /// Whether the actor is among those that supply at the start.
    pub source: bool,
    pub product: Option<String>,
    pub speed: Option<SpeedConfig>,
    pub max_production: Option<u32>,
    /// The time distributions of the actor's delay: none or one.
    pub log: Vec<LogConfig>,
    pub clients: Vec<ClientConfig>,
}

/// The description of a network.
pub struct ParsedConfig {
    pub components: Vec<String>,
    pub actors: Vec<ActorConfig>,
}

/// What is wrong with the product of an actor, if anything: it is not
/// given, or it is not among the components.
pub open spec fn product_error(cfg: ActorConfig, components: Map<Seq<char>, u16>) -> Option<
    ErrorView,
> {
    match cfg.product {
        None => Some(ErrorView::SectionMissing("product"@)),
        Some(product) => if components.contains_key(product@) {
            None
        } else {
            Some(ErrorView::UnknownComponent(product@))
        },
    }
}

/// What is wrong with the description of a source, if anything: with its
/// product, or its speed or its maximum is not given.
pub open spec fn source_error(cfg: ActorConfig, components: Map<Seq<char>, u16>) -> Option<
    ErrorView,
> {
    if product_error(cfg, components) is Some {
        product_error(cfg, components)
    } else if cfg.speed is None {
        Some(ErrorView::SectionMissing("speed"@))
    } else if cfg.max_production is None {
        Some(ErrorView::SectionMissing("max_production"@))
    } else {
        None
    }
}

/// What is wrong with the description of a transformer, if anything: with
/// its product, or it has more than one time distribution, or one that
/// is not registered.
pub open spec fn transformer_error(
    cfg: ActorConfig,
    components: Map<Seq<char>, u16>,
    labels: Seq<String>,
) -> Option<ErrorView> {
    if product_error(cfg, components) is Some {
        product_error(cfg, components)
    } else if cfg.log@.len() > 1 {
        Some(ErrorView::WrongFormat("log"@))
    } else if cfg.log@.len() == 1 && !has_label(labels, cfg.log@[0].distribution@) {
        Some(ErrorView::UnknownTimeDistribution(cfg.log@[0].distribution@))
    } else {
        None
    }
}

/// The source that a description without error describes, with code
/// `code` at place `place`.
pub open spec fn described_source(
    cfg: ActorConfig,
    code: u16,
    place: usize,
    components: Map<Seq<char>, u16>,
) -> SourceView {
    SourceView {
        code,
        code_product: components[cfg.product->0@],
        speed: (cfg.speed->0.quantity, cfg.speed->0.time),
        last: None,
        total: 0,
        max_production: cfg.max_production->0,
        client: Broadcast::new_view(code, components[cfg.product->0@]),
        place,
    }
}

/// The transformer that a description without error describes, with code
/// `code` at place `place`.
pub open spec fn described_transformer(
    cfg: ActorConfig,
    code: u16,
    place: usize,
    components: Map<Seq<char>, u16>,
) -> TransformerView {
    TransformerView {
        code,
        code_product: components[cfg.product->0@],
        held: Seq::empty(),
        client: Broadcast::new_view(code, components[cfg.product->0@]),
        delays: if cfg.log@.len() == 1 {
            cfg.log@[0].samples@
        } else {
            Seq::empty()
        },
        cursor: 0,
        total: 0,
        place,
    }
}

impl SimpleSink {
    /// The sink with code `code`.  Nothing in a description can be wrong for a sink.
    pub fn parse(cfg: &ActorConfig, code: u16) -> (parsed: Result<SimpleSink, ParseError>)
        ensures
            parsed matches Ok(sink) && sink@ == (SinkView { code, held: Seq::empty() })
                && sink.wf(),
    {
        Ok(SimpleSink::new(code))
    }
}

/// The code of the product of an actor, or what is wrong with the product.
pub fn parse_product(cfg: &ActorConfig, components: &BiHashMap<String, u16>) -> (parsed: Result<
    u16,
    ParseError,
>)
    ensures
        match parsed {
            Ok(code) => product_error(*cfg, code_pairs(*components)) is None && code
                == code_pairs(*components)[cfg.product->0@],
            Err(e) => product_error(*cfg, code_pairs(*components)) == Some(e@),
        },
{
    match &cfg.product {
        None => Err(ParseError::SectionMissing(String::from_str("product"))),
        Some(product) => match code_of(components, product) {
            Some(code) => Ok(code),
            None => Err(ParseError::UnknownComponent(product.clone())),
        },
    }
}

impl SimpleSource {
    /// The source that `cfg` describes, with code `code` at place `place`,
    /// or what is wrong with the description.
    pub fn parse(
        cfg: &ActorConfig,
        code: u16,
        place: usize,
        components: &BiHashMap<String, u16>,
    ) -> (parsed: Result<SimpleSource, ParseError>)
        ensures
            match parsed {
                Ok(source) => source_error(*cfg, code_pairs(*components)) is None && source@
                    == described_source(*cfg, code, place, code_pairs(*components))
                    && source.wf(),
                Err(e) => source_error(*cfg, code_pairs(*components)) == Some(e@),
            },
    {
        let code_product = match parse_product(cfg, components) {
            Ok(code_product) => code_product,
            Err(e) => {
                return Err(e);
            },
        };
        let speed = match &cfg.speed {
            Some(speed) => (speed.quantity, speed.time),
            None => {
                return Err(ParseError::SectionMissing(String::from_str("speed")));
            },
        };
        let max_production = match cfg.max_production {
            Some(max_production) => max_production,
            None => {
                return Err(ParseError::SectionMissing(String::from_str("max_production")));
            },
        };
        Ok(SimpleSource::new(code, code_product, speed, max_production, place))
    }
}

impl SimpleActor {
    /// The transformer that `cfg` describes, with code `code` at place
    /// `place`, or what is wrong with the description.
    pub fn parse(
        cfg: &ActorConfig,
        code: u16,
        place: usize,
        components: &BiHashMap<String, u16>,
        times: &TimeRegistry,
    ) -> (parsed: Result<SimpleActor, ParseError>)
        ensures
            match parsed {
                Ok(actor) => transformer_error(*cfg, code_pairs(*components), times.labels@)
                    is None && actor@ == described_transformer(
                    *cfg,
                    code,
                    place,
                    code_pairs(*components),
                ) && actor.wf(),
                Err(e) => transformer_error(*cfg, code_pairs(*components), times.labels@) == Some(
                    e@,
                ),
            },
    {
        let code_product = match parse_product(cfg, components) {
            Ok(code_product) => code_product,
            Err(e) => {
                return Err(e);
            },
        };
        if cfg.log.len() > 1 {
            return Err(ParseError::WrongFormat(String::from_str("log")));
        }
        let delay_sampler = if cfg.log.len() == 1 {
            let log = &cfg.log[0];
            if !times.knows(&log.distribution) {
                return Err(ParseError::UnknownTimeDistribution(log.distribution.clone()));
            }
            let n = log.samples.len();
            let mut samples: Vec<u64> = Vec::new();
            let mut i: usize = 0;
            while i < n
                invariant
                    i <= n,
                    n == log.samples@.len(),
                    samples@ == log.samples@.take(i as int),
                decreases n - i,
            {
                samples.push(log.samples[i]);
                i += 1;
                assert(samples@ =~= log.samples@.take(i as int));
            }
            assert(log.samples@.take(n as int) =~= log.samples@);
            Some(CyclicSampler::new_from_vec(samples))
        } else {
            None
        };
        Ok(SimpleActor::new(code, code_product, place, delay_sampler))
    }
}

/// What is wrong with the description of an actor, if anything: its kind
/// is not registered, it is to supply at the start and is no source, or
/// something is wrong for its kind.
pub open spec fn actor_error(
    cfg: ActorConfig,
    components: Map<Seq<char>, u16>,
    kinds: Seq<(String, ActorKind)>,
    labels: Seq<String>,
) -> Option<ErrorView> {
    match kind_of(kinds, cfg.actor_type@) {
        None => Some(ErrorView::UnknownActor(cfg.actor_type@)),
        Some(ActorKind::SimpleSource) => source_error(cfg, components),
        Some(ActorKind::SimpleSink) => if cfg.source {
            Some(ErrorView::WrongFormat("source"@))
        } else {
            None
        },
        Some(ActorKind::SimpleActor) => if cfg.source {
            Some(ErrorView::WrongFormat("source"@))
        } else {
            transformer_error(cfg, components, labels)
        },
    }
}

/// The actor that a description without error describes, with code `code`
/// at place `place`.
pub open spec fn described(
    cfg: ActorConfig,
    code: u16,
    place: usize,
    components: Map<Seq<char>, u16>,
    kinds: Seq<(String, ActorKind)>,
) -> ActorView {
    match kind_of(kinds, cfg.actor_type@) {
        Some(ActorKind::SimpleSource) => ActorView::Source(
            described_source(cfg, code, place, components),
        ),
        Some(ActorKind::SimpleActor) => ActorView::Transformer(
            described_transformer(cfg, code, place, components),
        ),
        _ => ActorView::Sink(SinkView { code, held: Seq::empty() }),
    }
}

/// The code of the actor at place `i`: the first actor has the offset as
/// its code, each next one the offset more.
pub open spec fn actor_code(i: int, offset: u16) -> u16 {
    ((i + 1) * offset) as u16
}

/// What is wrong with the first of the first `n` descriptions with which
/// something is wrong.
pub open spec fn first_actor_error(
    configs: Seq<ActorConfig>,
    components: Map<Seq<char>, u16>,
    kinds: Seq<(String, ActorKind)>,
    labels: Seq<String>,
    n: nat,
) -> Option<ErrorView>
    decreases n,
{
    if n == 0 {
        None
    } else if first_actor_error(configs, components, kinds, labels, (n - 1) as nat) is Some {
        first_actor_error(configs, components, kinds, labels, (n - 1) as nat)
    } else {
        actor_error(configs[n - 1], components, kinds, labels)
    }
}

/// The pairs of name and code of the first `n` actors.  Of two actors of
/// one name, the later one has the name.
pub open spec fn named_codes(configs: Seq<ActorConfig>, offset: u16, n: nat) -> Map<Seq<char>, u16>
    decreases n,
{
    if n == 0 {
        Map::empty()
    } else {
        paired(
            named_codes(configs, offset, (n - 1) as nat),
            configs[n - 1].name@,
            actor_code(n - 1, offset),
        )
    }
}

/// The actor that `cfg` describes, with code `code` at place `place`, or
/// what is wrong with the description.
pub fn parse_actor(
    cfg: &ActorConfig,
    code: u16,
    place: usize,
    components: &BiHashMap<String, u16>,
    kinds: &ActorRegistry,
    times: &TimeRegistry,
) -> (parsed: Result<AnyActor, ParseError>)
    ensures
        match parsed {
            Ok(actor) => actor_error(*cfg, code_pairs(*components), kinds.entries@, times.labels@)
                is None && actor@ == described(
                *cfg,
                code,
                place,
                code_pairs(*components),
                kinds.entries@,
            ) && actor.wf(),
            Err(e) => actor_error(*cfg, code_pairs(*components), kinds.entries@, times.labels@)
                == Some(e@),
        },
{
    match kinds.find(&cfg.actor_type) {
        None => Err(ParseError::UnknownActor(cfg.actor_type.clone())),
        Some(ActorKind::SimpleSource) => match SimpleSource::parse(cfg, code, place, components) {
            Ok(source) => Ok(AnyActor::Source(source)),
            Err(e) => Err(e),
        },
        Some(ActorKind::SimpleSink) => {
            if cfg.source {
                Err(ParseError::WrongFormat(String::from_str("source")))
            } else {
                match SimpleSink::parse(cfg, code) {
                    Ok(sink) => Ok(AnyActor::Sink(sink)),
                    Err(e) => Err(e),
                }
            }
        },
        Some(ActorKind::SimpleActor) => {
            if cfg.source {
                Err(ParseError::WrongFormat(String::from_str("source")))
            } else {
                match SimpleActor::parse(cfg, code, place, components, times) {
                    Ok(actor) => Ok(AnyActor::Transformer(actor)),
                    Err(e) => Err(e),
                }
            }
        },
    }
}

/// The actors that the descriptions describe, each at the place of its
/// description, and the pairs of their names and codes; or what is wrong
/// with the first description with which something is wrong.
pub fn build_actors(
    configs: &Vec<ActorConfig>,
    components: &BiHashMap<String, u16>,
    offset: u16,
    kinds: &ActorRegistry,
    times: &TimeRegistry,
) -> (built: Result<(Vec<AnyActor>, BiHashMap<String, u16>), ParseError>)
    requires
        offset > 0,
        (configs@.len() + 1) * offset <= 0x1_0000,
    ensures
        match built {
            Ok((actors, codes)) => {
                &&& first_actor_error(
                    configs@,
                    code_pairs(*components),
                    kinds.entries@,
                    times.labels@,
                    configs@.len(),
                ) is None
                &&& actors@.len() == configs@.len()
                &&& network_wf(actors@)
                &&& forall|i: int|
                    0 <= i < configs@.len() ==> (#[trigger] actors@[i])@ == described(
                        configs@[i],
                        actor_code(i, offset),
                        i as usize,
                        code_pairs(*components),
                        kinds.entries@,
                    )
                &&& code_pairs(codes) == named_codes(configs@, offset, configs@.len())
            },
            Err(e) => first_actor_error(
                configs@,
                code_pairs(*components),
                kinds.entries@,
                times.labels@,
                configs@.len(),
            ) == Some(e@),
        },
{
    let n = configs.len();
    let mut actors: Vec<AnyActor> = Vec::new();
    let mut codes = new_code_map();
    let mut i: usize = 0;
    proof {
        assert(code_pairs(codes) =~= named_codes(configs@, offset, 0));
    }
    while i < n
        invariant
            i <= n,
            n == configs@.len(),
            offset > 0,
            (n + 1) * offset <= 0x1_0000,
            first_actor_error(
                configs@,
                code_pairs(*components),
                kinds.entries@,
                times.labels@,
                i as nat,
            ) is None,
            actors@.len() == i,
            network_wf(actors@),
            forall|k: int|
                0 <= k < i ==> (#[trigger] actors@[k])@ == described(
                    configs@[k],
                    actor_code(k, offset),
                    k as usize,
                    code_pairs(*components),
                    kinds.entries@,
                ),
            code_pairs(codes) == named_codes(configs@, offset, i as nat),
        decreases n - i,
    {
        proof {
            assert((i + 1) * offset + offset <= (n + 1) * offset) by (nonlinear_arith)
                requires
                    i < n,
                    offset >= 0,
            ;
            assert(n < 0x1_0000) by (nonlinear_arith)
                requires
                    (n + 1) * offset <= 0x1_0000,
                    offset >= 1,
            ;
        }
        let code: u16 = ((i as u32 + 1) * (offset as u32)) as u16;
        let cfg = &configs[i];
        let actor = match parse_actor(cfg, code, i, components, kinds, times) {
            Ok(actor) => actor,
            Err(e) => {
                proof {
                    lemma_first_actor_error_stays(
                        configs@,
                        code_pairs(*components),
                        kinds.entries@,
                        times.labels@,
                        (i + 1) as nat,
                        n as nat,
                    );
                }
                return Err(e);
            },
        };
        actors.push(actor);
        pair_code(&mut codes, cfg.name.clone(), code);
        i += 1;
    }
    Ok((actors, codes))
}

/// The first thing wrong among the first descriptions is the first thing
/// wrong among more of them.
pub proof fn lemma_first_actor_error_stays(
    configs: Seq<ActorConfig>,
    components: Map<Seq<char>, u16>,
    kinds: Seq<(String, ActorKind)>,
    labels: Seq<String>,
    n: nat,
    m: nat,
)
    requires
        n <= m,
        first_actor_error(configs, components, kinds, labels, n) is Some,
    ensures
        first_actor_error(configs, components, kinds, labels, m) == first_actor_error(
            configs,
            components,
            kinds,
            labels,
            n,
        ),
    decreases m,
{
    if n < m {
        lemma_first_actor_error_stays(configs, components, kinds, labels, n, (m - 1) as nat);
    }
}

/// The place of the last of the first `n` descriptions that has name `name`.
pub open spec fn resolved(configs: Seq<ActorConfig>, name: Seq<char>, n: nat) -> Option<int>
    decreases n,
{
    if n == 0 {
        None
    } else if configs[n - 1].name@ == name {
        Some(n - 1)
    } else {
        resolved(configs, name, (n - 1) as nat)
    }
}

/// The place that a name resolves to is the place of a description.
pub proof fn lemma_resolved_bound(configs: Seq<ActorConfig>, name: Seq<char>, n: nat)
    ensures
        resolved(configs, name, n) matches Some(place) ==> 0 <= place < n,
    decreases n,
{
    if n > 0 {
        lemma_resolved_bound(configs, name, (n - 1) as nat);
    }
}

/// The place of the actor with name `name`: that of the last description with the name.
pub fn find_actor(configs: &Vec<ActorConfig>, name: &String) -> (place: Option<usize>)
    ensures
        match place {
            Some(place) => resolved(configs@, name@, configs@.len()) == Some(place as int)
                && place < configs@.len(),
            None => resolved(configs@, name@, configs@.len()) is None,
        },
{
    let mut i = configs.len();
    while i > 0
        invariant
            i <= configs@.len(),
            resolved(configs@, name@, configs@.len()) == resolved(configs@, name@, i as nat),
        decreases i,
    {
        if configs[i - 1].name == *name {
            return Some(i - 1);
        }
        i -= 1;
    }
    None
}

/// What is wrong with edge `k` of the actor at place `i`, if anything:
/// the actor is a sink, the product is not among the components, no
/// actor has the client's name, or the client is a source.
pub open spec fn client_error(
    configs: Seq<ActorConfig>,
    shape: Seq<ActorView>,
    components: Map<Seq<char>, u16>,
    i: int,
    k: int,
) -> Option<ErrorView> {
    let edge = configs[i].clients@[k];
    if shape[i] is Sink {
        Some(ErrorView::WrongFormat("clients"@))
    } else if !components.contains_key(edge.product@) {
        Some(ErrorView::UnknownComponent(edge.product@))
    } else {
        match resolved(configs, edge.name@, configs.len()) {
            None => Some(ErrorView::SectionMissing(edge.name@)),
            Some(place) => if shape[place] is Source {
                Some(ErrorView::WrongFormat("client"@))
            } else {
                None
            },
        }
    }
}

/// The client that edge `k` of the actor at place `i` registers.
pub open spec fn client_at(configs: Seq<ActorConfig>, shape: Seq<ActorView>, i: int, k: int) -> Client {
    let edge = configs[i].clients@[k];
    let place = resolved(configs, edge.name@, configs.len())->0;
    Client { code: shape[place].code(), quantity: edge.quantity, actor: place as usize }
}

/// What is wrong with the first of the first `k` edges of the actor at
/// place `i` with which something is wrong.
pub open spec fn first_client_error_in(
    configs: Seq<ActorConfig>,
    shape: Seq<ActorView>,
    components: Map<Seq<char>, u16>,
    i: int,
    k: nat,
) -> Option<ErrorView>
    decreases k,
{
    if k == 0 {
        None
    } else if first_client_error_in(configs, shape, components, i, (k - 1) as nat) is Some {
        first_client_error_in(configs, shape, components, i, (k - 1) as nat)
    } else {
        client_error(configs, shape, components, i, k - 1)
    }
}

/// What is wrong with the first edge, of the first `i` actors, with which
/// something is wrong.
pub open spec fn first_client_error(
    configs: Seq<ActorConfig>,
    shape: Seq<ActorView>,
    components: Map<Seq<char>, u16>,
    i: nat,
) -> Option<ErrorView>
    decreases i,
{
    if i == 0 {
        None
    } else if first_client_error(configs, shape, components, (i - 1) as nat) is Some {
        first_client_error(configs, shape, components, (i - 1) as nat)
    } else {
        first_client_error_in(
            configs,
            shape,
            components,
            i - 1,
            configs[i - 1].clients@.len(),
        )
    }
}

/// The actor at place `i` after its first `k` edges were registered, in their order.
pub open spec fn wired(
    actor: ActorView,
    configs: Seq<ActorConfig>,
    shape: Seq<ActorView>,
    i: int,
    k: nat,
) -> ActorView
    decreases k,
{
    if k == 0 {
        actor
    } else {
        wired(actor, configs, shape, i, (k - 1) as nat).registered(
            client_at(configs, shape, i, k - 1),
        )
    }
}

/// The first thing wrong among the first edges of an actor is the first
/// thing wrong among more of them.
pub proof fn lemma_first_client_error_in_stays(
    configs: Seq<ActorConfig>,
    shape: Seq<ActorView>,
    components: Map<Seq<char>, u16>,
    i: int,
    k: nat,
    m: nat,
)
    requires
        k <= m,
        first_client_error_in(configs, shape, components, i, k) is Some,
    ensures
        first_client_error_in(configs, shape, components, i, m) == first_client_error_in(
            configs,
            shape,
            components,
            i,
            k,
        ),
    decreases m,
{
    if k < m {
        lemma_first_client_error_in_stays(configs, shape, components, i, k, (m - 1) as nat);
    }
}

/// The first thing wrong among the edges of the first actors is the first
/// thing wrong among those of more of them.
pub proof fn lemma_first_client_error_stays(
    configs: Seq<ActorConfig>,
    shape: Seq<ActorView>,
    components: Map<Seq<char>, u16>,
    i: nat,
    m: nat,
)
    requires
        i <= m,
        first_client_error(configs, shape, components, i) is Some,
    ensures
        first_client_error(configs, shape, components, m) == first_client_error(
            configs,
            shape,
            components,
            i,
        ),
    decreases m,
{
    if i < m {
        lemma_first_client_error_stays(configs, shape, components, i, (m - 1) as nat);
    }
}

/// Every client of every actor stands in the network and is no source.
pub open spec fn edges_ok(actors: Seq<ActorView>) -> bool {
    forall|i: int, k: int|
        0 <= i < actors.len() && 0 <= k < actors[i].clients().len() ==> edge_ok(
            actors,
            #[trigger] actors[i].clients()[k],
        )
}

/// What is wrong with an edge, and the client it registers, depend on the
/// actors only through their codes and kinds.
pub proof fn lemma_client_shape(
    configs: Seq<ActorConfig>,
    shape: Seq<ActorView>,
    other: Seq<ActorView>,
    components: Map<Seq<char>, u16>,
    i: int,
    k: int,
)
    requires
        same_shape(shape, other),
        shape.len() == configs.len(),
        0 <= i < configs.len(),
    ensures
        client_error(configs, shape, components, i, k) == client_error(
            configs,
            other,
            components,
            i,
            k,
        ),
        client_error(configs, shape, components, i, k) is None ==> client_at(configs, shape, i, k)
            == client_at(configs, other, i, k),
{
    let edge = configs[i].clients@[k];
    lemma_resolved_bound(configs, edge.name@, configs.len());
    assert(shape[i].code() == other[i].code());
    match resolved(configs, edge.name@, configs.len()) {
        Some(place) => {
            assert(shape[place].code() == other[place].code());
        },
        None => {},
    }
}

/// A registration with one actor leaves every client of every actor in
/// the network and no source.
pub proof fn lemma_registered_edges_ok(was: Seq<ActorView>, i: int, client: Client)
    requires
        edges_ok(was),
        0 <= i < was.len(),
        edge_ok(was, client),
    ensures
        edges_ok(was.update(i, was[i].registered(client))),
        same_shape(was, was.update(i, was[i].registered(client))),
{
    let now = was.update(i, was[i].registered(client));
    lemma_upserted_members(was[i].clients(), client);
    assert forall|a: int, b: int|
        0 <= a < now.len() && 0 <= b < now[a].clients().len() implies edge_ok(
        now,
        #[trigger] now[a].clients()[b],
    ) by {
        let c = now[a].clients()[b];
        if a == i {
            if c != client {
                assert(now[a].clients() == upserted(was[i].clients(), client));
                let y = choose|y: int|
                    0 <= y < was[i].clients().len() && was[i].clients()[y] == c;
                assert(edge_ok(was, was[i].clients()[y]));
            }
        } else {
            assert(now[a] == was[a]);
            assert(edge_ok(was, was[a].clients()[b]));
        }
        assert(was[c.actor as int].code() == now[c.actor as int].code());
    }
}

/// Registers edge `k` of the actor at place `i` with the actor, or tells
/// what is wrong with the edge and changes nothing.
pub fn connect_client(
    configs: &Vec<ActorConfig>,
    actors: &mut Vec<AnyActor>,
    components: &BiHashMap<String, u16>,
    i: usize,
    k: usize,
) -> (connected: Result<(), ParseError>)
    requires
        old(actors)@.len() == configs@.len(),
        network_wf(old(actors)@),
        edges_ok(views(old(actors)@)),
        i < configs@.len(),
        k < configs@[i as int].clients@.len(),
    ensures
        final(actors)@.len() == configs@.len(),
        same_shape(views(old(actors)@), views(final(actors)@)),
        network_wf(final(actors)@),
        edges_ok(views(final(actors)@)),
        forall|x: int|
            0 <= x < configs@.len() && x != i ==> (#[trigger] final(actors)@[x])@ == old(
                actors,
            )@[x]@,
        match connected {
            Ok(_) => client_error(
                configs@,
                views(old(actors)@),
                code_pairs(*components),
                i as int,
                k as int,
            ) is None && final(actors)@[i as int]@ == old(actors)@[i as int]@.registered(
                client_at(configs@, views(old(actors)@), i as int, k as int),
            ),
            Err(e) => client_error(
                configs@,
                views(old(actors)@),
                code_pairs(*components),
                i as int,
                k as int,
            ) == Some(e@) && final(actors)@[i as int]@ == old(actors)@[i as int]@,
        },
{
    let ghost was = views(actors@);
    let edge = &configs[i].clients[k];
    proof {
        assert(was[i as int] == actors@[i as int]@);
        assert(same_shape(was, was));
    }
    if actors[i].is_sink() {
        return Err(ParseError::WrongFormat(String::from_str("clients")));
    }
    let code_product = match code_of(components, &edge.product) {
        Some(code_product) => code_product,
        None => {
            return Err(ParseError::UnknownComponent(edge.product.clone()));
        },
    };
    let place = match find_actor(configs, &edge.name) {
        Some(place) => place,
        None => {
            return Err(ParseError::SectionMissing(edge.name.clone()));
        },
    };
    proof {
        assert(was[place as int] == actors@[place as int]@);
    }
    if actors[place].is_source() {
        return Err(ParseError::WrongFormat(String::from_str("client")));
    }
    let code = actors[place].code();
    let ghost client = Client { code, quantity: edge.quantity, actor: place };
    proof {
        assert(client == client_at(configs@, was, i as int, k as int));
        assert(actors@[i as int].wf());
        lemma_registered_edges_ok(was, i as int, client);
    }
    actors[i].register(code, code_product, edge.quantity, place);
    proof {
        assert(views(actors@) =~= was.update(i as int, was[i as int].registered(client)));
    }
    Ok(())
}

/// Registers the edges of every actor with the actor, in the order of
/// the descriptions and, for each, of its edges; or tells what is wrong
/// with the first edge with which something is wrong.
pub fn connect_to_clients(
    configs: &Vec<ActorConfig>,
    actors: &mut Vec<AnyActor>,
    components: &BiHashMap<String, u16>,
) -> (connected: Result<(), ParseError>)
    requires
        old(actors)@.len() == configs@.len(),
        network_wf(old(actors)@),
        edges_ok(views(old(actors)@)),
    ensures
        final(actors)@.len() == configs@.len(),
        same_shape(views(old(actors)@), views(final(actors)@)),
        network_wf(final(actors)@),
        match connected {
            Ok(_) => {
                &&& first_client_error(
                    configs@,
                    views(old(actors)@),
                    code_pairs(*components),
                    configs@.len(),
                ) is None
                &&& forall|i: int|
                    0 <= i < configs@.len() ==> (#[trigger] final(actors)@[i])@ == wired(
                        old(actors)@[i]@,
                        configs@,
                        views(old(actors)@),
                        i,
                        configs@[i].clients@.len(),
                    )
                &&& edges_ok(views(final(actors)@))
            },
            Err(e) => first_client_error(
                configs@,
                views(old(actors)@),
                code_pairs(*components),
                configs@.len(),
            ) == Some(e@),
        },
{
    let ghost shape = views(actors@);
    let ghost comps = code_pairs(*components);
    let ghost before = actors@;
    let n = configs.len();
    let mut i: usize = 0;
    while i < n
        invariant
            i <= n,
            n == configs@.len(),
            actors@.len() == n,
            before == old(actors)@,
            before.len() == n,
            shape == views(before),
            comps == code_pairs(*components),
            same_shape(shape, views(actors@)),
            network_wf(actors@),
            edges_ok(views(actors@)),
            first_client_error(configs@, shape, comps, i as nat) is None,
            forall|x: int|
                0 <= x < i ==> (#[trigger] actors@[x])@ == wired(
                    before[x]@,
                    configs@,
                    shape,
                    x,
                    configs@[x].clients@.len(),
                ),
            forall|x: int| i <= x < n ==> (#[trigger] actors@[x])@ == before[x]@,
        decreases n - i,
    {
        let m = configs[i].clients.len();
        let mut k: usize = 0;
        while k < m
            invariant
                i < n,
                k <= m,
                n == configs@.len(),
                m == configs@[i as int].clients@.len(),
                actors@.len() == n,
                before == old(actors)@,
                before.len() == n,
                shape == views(before),
                comps == code_pairs(*components),
                same_shape(shape, views(actors@)),
                network_wf(actors@),
                edges_ok(views(actors@)),
                first_client_error(configs@, shape, comps, i as nat) is None,
                first_client_error_in(configs@, shape, comps, i as int, k as nat) is None,
                forall|x: int|
                    0 <= x < i ==> (#[trigger] actors@[x])@ == wired(
                        before[x]@,
                        configs@,
                        shape,
                        x,
                        configs@[x].clients@.len(),
                    ),
                actors@[i as int]@ == wired(before[i as int]@, configs@, shape, i as int, k as nat),
                forall|x: int| i < x < n ==> (#[trigger] actors@[x])@ == before[x]@,
            decreases m - k,
        {
            let ghost now = views(actors@);
            proof {
                lemma_client_shape(configs@, shape, now, comps, i as int, k as int);
            }
            let outcome = connect_client(configs, actors, components, i, k);
            proof {
                let after = views(actors@);
                assert forall|x: int| 0 <= x < shape.len() implies {
                    &&& (#[trigger] shape[x]).code() == after[x].code()
                    &&& shape[x] is Source <==> after[x] is Source
                    &&& shape[x] is Sink <==> after[x] is Sink
                } by {
                    assert(now[x].code() == after[x].code());
                }
            }
            match outcome {
                Ok(_) => {},
                Err(e) => {
                    proof {
                        assert(client_error(configs@, shape, comps, i as int, k as int) == Some(
                            e@,
                        ));
                        assert(first_client_error_in(
                            configs@,
                            shape,
                            comps,
                            i as int,
                            (k + 1) as nat,
                        ) == Some(e@));
                        lemma_first_client_error_in_stays(
                            configs@,
                            shape,
                            comps,
                            i as int,
                            (k + 1) as nat,
                            m as nat,
                        );
                        assert(first_client_error(configs@, shape, comps, (i + 1) as nat) == Some(
                            e@,
                        ));
                        lemma_first_client_error_stays(
                            configs@,
                            shape,
                            comps,
                            (i + 1) as nat,
                            n as nat,
                        );
                    }
                    return Err(e);
                },
            }
            k += 1;
        }
        i += 1;
    }
    Ok(())
}

/// The places of those of the first `n` actors that supply at the start.
pub open spec fn flagged(configs: Seq<ActorConfig>, n: nat) -> Seq<usize>
    decreases n,
{
    if n == 0 {
        Seq::empty()
    } else if configs[n - 1].source {
        flagged(configs, (n - 1) as nat).push((n - 1) as usize)
    } else {
        flagged(configs, (n - 1) as nat)
    }
}

/// The places of the actors that supply at the start, in the order of the descriptions.
pub fn get_sources(configs: &Vec<ActorConfig>) -> (sources: Vec<usize>)
    ensures
        sources@ == flagged(configs@, configs@.len()),
{
    let n = configs.len();
    let mut sources: Vec<usize> = Vec::new();
    let mut i: usize = 0;
    while i < n
        invariant
            i <= n,
            n == configs@.len(),
            sources@ == flagged(configs@, i as nat),
        decreases n - i,
    {
        if configs[i].source {
            sources.push(i);
        }
        i += 1;
    }
    sources
}

/// The stamp under which the client of edge `k` of the actor at place `i`
/// logs the product of the edge.
pub open spec fn stamp_at(
    configs: Seq<ActorConfig>,
    shape: Seq<ActorView>,
    components: Map<Seq<char>, u16>,
    i: int,
    k: int,
) -> u16 {
    (client_at(configs, shape, i, k).code + components[configs[i].clients@[k].product@]) as u16
}

/// The stamps of the first `k` edges of the actor at place `i`.
pub open spec fn actor_stamps(
    configs: Seq<ActorConfig>,
    shape: Seq<ActorView>,
    components: Map<Seq<char>, u16>,
    i: int,
    k: nat,
) -> Seq<u16>
    decreases k,
{
    if k == 0 {
        Seq::empty()
    } else {
        actor_stamps(configs, shape, components, i, (k - 1) as nat).push(
            stamp_at(configs, shape, components, i, k - 1),
        )
    }
}

/// The stamps of the edges of the first `i` actors, in the order of the
/// descriptions and, for each, of its edges.
pub open spec fn edge_stamps(
    configs: Seq<ActorConfig>,
    shape: Seq<ActorView>,
    components: Map<Seq<char>, u16>,
    i: nat,
) -> Seq<u16>
    decreases i,
{
    if i == 0 {
        Seq::empty()
    } else {
        edge_stamps(configs, shape, components, (i - 1) as nat) + actor_stamps(
            configs,
            shape,
            components,
            i - 1,
            configs[i - 1].clients@.len(),
        )
    }
}

/// The rows of the stamps: each stamp has a row of its own; the rows are
/// 0, 1, 2, ... in the order in which the stamps first occur.
pub open spec fn stamp_rows(stamps: Seq<u16>) -> Map<u16, usize>
    decreases stamps.len(),
{
    if stamps.len() == 0 {
        Map::empty()
    } else {
        let rows = stamp_rows(stamps.drop_last());
        if rows.contains_key(stamps.last()) {
            rows
        } else {
            rows.insert(stamps.last(), rows.dom().len() as usize)
        }
    }
}

/// There are finitely many rows, and each is below their number.
pub open spec fn rows_dense(rows: Map<u16, usize>) -> bool {
    &&& rows.dom().finite()
    &&& forall|stamp: u16| rows.contains_key(stamp) ==> (#[trigger] rows[stamp]) < rows.dom().len()
}

/// The rows of stamps are dense.
pub proof fn lemma_stamp_rows_dense(stamps: Seq<u16>)
    ensures
        rows_dense(stamp_rows(stamps)),
    decreases stamps.len(),
{
    if stamps.len() > 0 {
        lemma_stamp_rows_dense(stamps.drop_last());
    }
}

/// No edge has an error where the first error of all edges is none.
pub proof fn lemma_no_client_error(
    configs: Seq<ActorConfig>,
    shape: Seq<ActorView>,
    components: Map<Seq<char>, u16>,
    n: nat,
    i: int,
    k: int,
)
    requires
        first_client_error(configs, shape, components, n) is None,
        0 <= i < n,
        0 <= k < configs[i].clients@.len(),
    ensures
        client_error(configs, shape, components, i, k) is None,
    decreases n,
{
    if i < n - 1 {
        lemma_no_client_error(configs, shape, components, (n - 1) as nat, i, k);
    } else {
        lemma_no_client_error_in(
            configs,
            shape,
            components,
            i,
            configs[i].clients@.len(),
            k,
        );
    }
}

/// No edge of an actor has an error where the first error of its edges is none.
pub proof fn lemma_no_client_error_in(
    configs: Seq<ActorConfig>,
    shape: Seq<ActorView>,
    components: Map<Seq<char>, u16>,
    i: int,
    m: nat,
    k: int,
)
    requires
        first_client_error_in(configs, shape, components, i, m) is None,
        0 <= k < m,
    ensures
        client_error(configs, shape, components, i, k) is None,
    decreases m,
{
    if k < m - 1 {
        lemma_no_client_error_in(configs, shape, components, i, (m - 1) as nat, k);
    }
}

/// Every stamp of a product and an actor fits a code.
pub open spec fn stamps_fit(shape: Seq<ActorView>, components: Map<Seq<char>, u16>) -> bool {
    forall|name: Seq<char>, x: int|
        components.contains_key(name) && 0 <= x < shape.len() ==> (#[trigger] components[name])
            + (#[trigger] shape[x]).code() <= u16::MAX
}

/// The rows of statistics: one for each stamp under which the client of
/// an edge logs the product of the edge, numbered in the order of the
/// descriptions and, for each, of its edges.
pub fn get_actors_indices(
    configs: &Vec<ActorConfig>,
    actors: &Vec<AnyActor>,
    components: &BiHashMap<String, u16>,
) -> (indices: BiHashMap<u16, usize>)
    requires
        actors@.len() == configs@.len(),
        first_client_error(configs@, views(actors@), code_pairs(*components), configs@.len())
            is None,
        stamps_fit(views(actors@), code_pairs(*components)),
    ensures
        row_pairs(indices) == stamp_rows(
            edge_stamps(configs@, views(actors@), code_pairs(*components), configs@.len()),
        ),
        rows_dense(row_pairs(indices)),
{
    let ghost shape = views(actors@);
    let ghost comps = code_pairs(*components);
    let mut res = new_row_map();
    let n = configs.len();
    let mut i: usize = 0;
    proof {
        assert(row_pairs(res) =~= stamp_rows(edge_stamps(configs@, shape, comps, 0)));
    }
    while i < n
        invariant
            i <= n,
            n == configs@.len(),
            actors@.len() == n,
            shape == views(actors@),
            comps == code_pairs(*components),
            first_client_error(configs@, shape, comps, n as nat) is None,
            stamps_fit(shape, comps),
            row_pairs(res) == stamp_rows(edge_stamps(configs@, shape, comps, i as nat)),
        decreases n - i,
    {
        let cfg = &configs[i];
        let m = cfg.clients.len();
        let mut k: usize = 0;
        let ghost done = edge_stamps(configs@, shape, comps, i as nat);
        proof {
            assert(done + actor_stamps(configs@, shape, comps, i as int, 0) =~= done);
        }
        while k < m
            invariant
                i < n,
                k <= m,
                n == configs@.len(),
                m == configs@[i as int].clients@.len(),
                *cfg == configs@[i as int],
                actors@.len() == n,
                shape == views(actors@),
                comps == code_pairs(*components),
                first_client_error(configs@, shape, comps, n as nat) is None,
                stamps_fit(shape, comps),
                done == edge_stamps(configs@, shape, comps, i as nat),
                row_pairs(res) == stamp_rows(
                    done + actor_stamps(configs@, shape, comps, i as int, k as nat),
                ),
            decreases m - k,
        {
            let edge = &cfg.clients[k];
            let ghost so_far = done + actor_stamps(configs@, shape, comps, i as int, k as nat);
            proof {
                lemma_no_client_error(configs@, shape, comps, n as nat, i as int, k as int);
                lemma_stamp_rows_dense(so_far);
            }
            match code_of(components, &edge.product) {
                Some(code_product) => match find_actor(configs, &edge.name) {
                    Some(place) => {
                        proof {
                            assert(shape[place as int] == actors@[place as int]@);
                            assert(comps[edge.product@] + shape[place as int].code() <= u16::MAX);
                        }
                        let stamp = actors[place].code() + code_product;
                        proof {
                            assert(stamp == stamp_at(configs@, shape, comps, i as int, k as int));
                            let next = done + actor_stamps(
                                configs@,
                                shape,
                                comps,
                                i as int,
                                (k + 1) as nat,
                            );
                            assert(next =~= so_far.push(stamp));
                            assert(next.drop_last() =~= so_far);
                        }
                        match row_of(&res, stamp) {
                            Some(_) => {},
                            None => {
                                let row = row_count(&res);
                                let ghost rows = row_pairs(res);
                                pair_row(&mut res, stamp, row);
                                proof {
                                    assert(row_pairs(res) =~= rows.insert(stamp, row));
                                }
                            },
                        }
                    },
                    None => {},
                },
                None => {},
            }
            k += 1;
        }
        i += 1;
    }
    proof {
        lemma_stamp_rows_dense(edge_stamps(configs@, shape, comps, n as nat));
    }
    res
}

/// The actors that the descriptions describe, with their edges
/// registered, and the pairs of their names and codes; or what is wrong
/// with the first description, or else the first edge, with which
/// something is wrong.
pub fn parse_actors(
    config: &ParsedConfig,
    components: &BiHashMap<String, u16>,
    offset: u16,
    kinds: &ActorRegistry,
    times: &TimeRegistry,
) -> (parsed: Result<(Vec<AnyActor>, BiHashMap<String, u16>), ParseError>)
    requires
        offset > 0,
        (config.actors@.len() + 1) * offset <= 0x1_0000,
    ensures
        match parsed {
            Ok((actors, codes)) => {
                &&& actors_error(*config, code_pairs(*components), offset, kinds.entries@, times.labels@)
                    is None
                &&& actors@.len() == config.actors@.len()
                &&& network_wf(actors@)
                &&& edges_ok(views(actors@))
                &&& same_shape(
                    described_all(config.actors@, offset, code_pairs(*components), kinds.entries@),
                    views(actors@),
                )
                &&& forall|i: int|
                    0 <= i < config.actors@.len() ==> (#[trigger] actors@[i])@ == wired(
                        described(
                            config.actors@[i],
                            actor_code(i, offset),
                            i as usize,
                            code_pairs(*components),
                            kinds.entries@,
                        ),
                        config.actors@,
                        described_all(
                            config.actors@,
                            offset,
                            code_pairs(*components),
                            kinds.entries@,
                        ),
                        i,
                        config.actors@[i].clients@.len(),
                    )
                &&& code_pairs(codes) == named_codes(config.actors@, offset, config.actors@.len())
            },
            Err(e) => actors_error(
                *config,
                code_pairs(*components),
                offset,
                kinds.entries@,
                times.labels@,
            ) == Some(e@),
        },
{
    let (mut actors, codes) = match build_actors(&config.actors, components, offset, kinds, times) {
        Ok(built) => built,
        Err(e) => {
            return Err(e);
        },
    };
    proof {
        let shape = described_all(
            config.actors@,
            offset,
            code_pairs(*components),
            kinds.entries@,
        );
        assert(views(actors@) =~= shape);
        assert forall|i: int, k: int|
            0 <= i < shape.len() && 0 <= k < shape[i].clients().len() implies edge_ok(
            shape,
            #[trigger] shape[i].clients()[k],
        ) by {}
    }
    match connect_to_clients(&config.actors, &mut actors, components) {
        Ok(_) => Ok((actors, codes)),
        Err(e) => Err(e),
    }
}

/// The actors that the descriptions describe, before any edge is registered.
pub open spec fn described_all(
    configs: Seq<ActorConfig>,
    offset: u16,
    components: Map<Seq<char>, u16>,
    kinds: Seq<(String, ActorKind)>,
) -> Seq<ActorView> {
    Seq::new(
        configs.len(),
        |i: int| described(configs[i], actor_code(i, offset), i as usize, components, kinds),
    )
}

/// What is wrong with the actors of a description, if anything: with the
/// first description of an actor with which something is wrong, or else
/// with the first edge with which something is wrong.
pub open spec fn actors_error(
    config: ParsedConfig,
    components: Map<Seq<char>, u16>,
    offset: u16,
    kinds: Seq<(String, ActorKind)>,
    labels: Seq<String>,
) -> Option<ErrorView> {
    if first_actor_error(config.actors@, components, kinds, labels, config.actors@.len())
        is Some {
        first_actor_error(config.actors@, components, kinds, labels, config.actors@.len())
    } else {
        first_client_error(
            config.actors@,
            described_all(config.actors@, offset, components, kinds),
            components,
            config.actors@.len(),
        )
    }
}

/// What the analyzer needs to know of a network: the row of statistics of
/// each logged stamp, the codes of products and actors by name, and the
/// offset between the codes of two actors.
pub struct LogingConfig {
    pub actors_indices: BiHashMap<u16, usize>,
    pub components_codes: BiHashMap<String, u16>,
    pub actors_codes: BiHashMap<String, u16>,
    pub offset_id_actors: u16,
}

impl LogingConfig {
    /// `name` is the name of an actor, a slash, and the name of a product,
    /// which have the codes that `stamp` tells.
    pub open spec fn names_stamp(&self, name: Seq<char>, stamp: u16) -> bool {
        exists|actor: Seq<char>, product: Seq<char>|
            {
                &&& name == actor + "/"@ + product
                &&& #[trigger] code_pairs(self.actors_codes).contains_key(actor)
                &&& code_pairs(self.actors_codes)[actor] == stamp_actor(stamp, self.offset_id_actors)
                &&& #[trigger] code_pairs(self.components_codes).contains_key(product)
                &&& code_pairs(self.components_codes)[product] == stamp_product(
                    stamp,
                    self.offset_id_actors,
                )
            }
    }

    /// Some actor and some product have the codes that `stamp` tells.
    pub open spec fn knows_stamp(&self, stamp: u16) -> bool {
        &&& self.offset_id_actors > 0
        &&& exists|actor: Seq<char>|
            #[trigger] code_pairs(self.actors_codes).contains_key(actor) && code_pairs(
                self.actors_codes,
            )[actor] == stamp_actor(stamp, self.offset_id_actors)
        &&& exists|product: Seq<char>|
            #[trigger] code_pairs(self.components_codes).contains_key(product) && code_pairs(
                self.components_codes,
            )[product] == stamp_product(stamp, self.offset_id_actors)
    }

    /// The name of a stamp: the name of its actor, a slash, and the name of
    /// its product.  There is none where the offset is 0 or no actor or no
    /// product has the code that the stamp tells.
    pub fn name_from_code(&self, code: u16) -> (name: Option<String>)
        ensures
            name is Some <==> self.knows_stamp(code),
            name matches Some(name) ==> self.names_stamp(name@, code),
    {
        if self.offset_id_actors == 0 {
            return None;
        }
        let (actor_code, component_code) = split_stamp(code, self.offset_id_actors);
        let actor = match name_of(&self.actors_codes, actor_code) {
            Some(actor) => actor,
            None => {
                return None;
            },
        };
        let component = match name_of(&self.components_codes, component_code) {
            Some(component) => component,
            None => {
                return None;
            },
        };
        let ghost actor_name = actor@;
        let name = actor.concat("/").concat(component.as_str());
        proof {
            assert(name@ == actor_name + "/"@ + component@);
            assert(code_pairs(self.actors_codes).contains_key(actor_name));
            assert(code_pairs(self.components_codes).contains_key(component@));
        }
        Some(name)
    }

    /// The number of actors that have a code.
    pub fn num_elements(&self) -> (n: usize)
        ensures
            numbered(code_pairs(self.actors_codes), n as nat),
    {
        code_count(&self.actors_codes)
    }
}

/// The pairs of name and code of the first `n` components: the first has
/// code 1, each next one a code one higher.  Of two components of one
/// name, the later one has the name.
pub open spec fn component_codes(names: Seq<String>, n: nat) -> Map<Seq<char>, u16>
    decreases n,
{
    if n == 0 {
        Map::empty()
    } else {
        paired(component_codes(names, (n - 1) as nat), names[n - 1]@, n as u16)
    }
}

/// The codes of the first `n` components are from 1 to `n`.
pub proof fn lemma_component_codes_bound(names: Seq<String>, n: nat)
    requires
        n <= u16::MAX,
    ensures
        forall|name: Seq<char>|
            component_codes(names, n).contains_key(name) ==> 1 <= (#[trigger] component_codes(
                names,
                n,
            )[name]) <= n,
    decreases n,
{
    if n > 0 {
        lemma_component_codes_bound(names, (n - 1) as nat);
        let before = component_codes(names, (n - 1) as nat);
        let now = component_codes(names, n);
        assert forall|name: Seq<char>| now.contains_key(name) implies 1 <= (#[trigger] now[name])
            <= n by {
            if name != names[n - 1]@ {
                assert(before.contains_key(name));
                assert(now[name] == before[name]);
            }
        }
    }
}

/// Registering edges changes, of an actor, the clients of its broadcast
/// and its rolling sequence, and nothing else.
pub proof fn lemma_wired_frame(
    actor: ActorView,
    configs: Seq<ActorConfig>,
    shape: Seq<ActorView>,
    i: int,
    k: nat,
)
    ensures
        wired(actor, configs, shape, i, k).code() == actor.code(),
        wired(actor, configs, shape, i, k).held() == actor.held(),
        wired(actor, configs, shape, i, k).outgoing() == actor.outgoing(),
        actor matches ActorView::Source(s) ==> wired(actor, configs, shape, i, k) matches ActorView::Source(
            w,
        ) && w.place == s.place && w.total == s.total && w.max_production == s.max_production
            && w.code_product == s.code_product && w.speed == s.speed,
        actor matches ActorView::Transformer(t) ==> wired(
            actor,
            configs,
            shape,
            i,
            k,
        ) matches ActorView::Transformer(w) && w.place == t.place && w.total == t.total
            && w.code_product == t.code_product && w.delays == t.delays && w.cursor == t.cursor,
        actor is Sink ==> wired(actor, configs, shape, i, k) == actor,
    decreases k,
{
    if k > 0 {
        lemma_wired_frame(actor, configs, shape, i, (k - 1) as nat);
    }
}

/// The first thing wrong among edges depends on the actors only through
/// their codes and kinds.
pub proof fn lemma_first_client_error_shape(
    configs: Seq<ActorConfig>,
    shape: Seq<ActorView>,
    other: Seq<ActorView>,
    components: Map<Seq<char>, u16>,
    n: nat,
)
    requires
        same_shape(shape, other),
        shape.len() == configs.len(),
        n <= configs.len(),
    ensures
        first_client_error(configs, shape, components, n) == first_client_error(
            configs,
            other,
            components,
            n,
        ),
    decreases n,
{
    if n > 0 {
        lemma_first_client_error_shape(configs, shape, other, components, (n - 1) as nat);
        lemma_first_client_error_in_shape(
            configs,
            shape,
            other,
            components,
            n - 1,
            configs[n - 1].clients@.len(),
        );
    }
}

/// The first thing wrong among the edges of an actor depends on the
/// actors only through their codes and kinds.
pub proof fn lemma_first_client_error_in_shape(
    configs: Seq<ActorConfig>,
    shape: Seq<ActorView>,
    other: Seq<ActorView>,
    components: Map<Seq<char>, u16>,
    i: int,
    k: nat,
)
    requires
        same_shape(shape, other),
        shape.len() == configs.len(),
        0 <= i < configs.len(),
    ensures
        first_client_error_in(configs, shape, components, i, k) == first_client_error_in(
            configs,
            other,
            components,
            i,
            k,
        ),
    decreases k,
{
    if k > 0 {
        lemma_first_client_error_in_shape(configs, shape, other, components, i, (k - 1) as nat);
        lemma_client_shape(configs, shape, other, components, i, k - 1);
    }
}

/// A network that can run, as built from a description: the actors, each
/// at the place of its description; the places of the sources that
/// supply at the start; a scheduler at time 0 with nothing pending; and
/// what the analyzer needs.
pub struct Config {
    pub actors: Vec<AnyActor>,
    pub init_sources: Vec<usize>,
    pub scheduler: Scheduler,
    pub loging_config: LogingConfig,
}

/// What is wrong with a description, if anything, in this order: there are
/// too many components for their codes; there are too many actors for
/// theirs; something is wrong with an actor; something is wrong with an edge.
pub open spec fn config_error(
    config: ParsedConfig,
    kinds: Seq<(String, ActorKind)>,
    labels: Seq<String>,
) -> Option<ErrorView> {
    let components = component_codes(config.components@, config.components@.len());
    if offset_for(config.components@.len()) > u16::MAX {
        Some(ErrorView::WrongFormat("components"@))
    } else if (config.actors@.len() + 1) * offset_for(config.components@.len()) > 0x1_0000 {
        Some(ErrorView::WrongFormat("actors"@))
    } else {
        actors_error(
            config,
            components,
            offset_for(config.components@.len()) as u16,
            kinds,
            labels,
        )
    }
}

impl Config {
    /// The network is the one that `config` describes.
    pub open spec fn describes(
        &self,
        config: ParsedConfig,
        kinds: Seq<(String, ActorKind)>,
    ) -> bool {
        let components = component_codes(config.components@, config.components@.len());
        let offset = offset_for(config.components@.len()) as u16;
        let shape = described_all(config.actors@, offset, components, kinds);
        &&& self.actors@.len() == config.actors@.len()
        &&& forall|i: int|
            0 <= i < config.actors@.len() ==> (#[trigger] self.actors@[i])@ == wired(
                shape[i],
                config.actors@,
                shape,
                i,
                config.actors@[i].clients@.len(),
            )
        &&& self.init_sources@ == flagged(config.actors@, config.actors@.len())
        &&& self.scheduler.queue() == Seq::<JobView>::empty()
        &&& self.scheduler.now() == 0
        &&& self.loging_config.offset_id_actors == offset
        &&& code_pairs(self.loging_config.components_codes) == components
        &&& code_pairs(self.loging_config.actors_codes) == named_codes(
            config.actors@,
            offset,
            config.actors@.len(),
        )
        &&& row_pairs(self.loging_config.actors_indices) == stamp_rows(
            edge_stamps(config.actors@, views(self.actors@), components, config.actors@.len()),
        )
    }

    /// The network can run: every actor is well-formed, the state is
    /// sound, and every place that is to supply at the start is that of a source.
    pub open spec fn ready(&self) -> bool {
        &&& network_wf(self.actors@)
        &&& world_of(self.actors@, self.scheduler).sound()
        &&& rows_dense(row_pairs(self.loging_config.actors_indices))
        &&& forall|k: int|
            0 <= k < self.init_sources@.len() ==> (#[trigger] self.init_sources@[k])
                < self.actors@.len() && self.actors@[self.init_sources@[k] as int] is Source
    }
}

/// The places that supply at the start are places of descriptions that say so.
pub proof fn lemma_flagged(configs: Seq<ActorConfig>, n: nat)
    requires
        n <= configs.len(),
        n <= usize::MAX,
    ensures
        forall|k: int|
            0 <= k < flagged(configs, n).len() ==> (#[trigger] flagged(configs, n)[k]) < n
                && configs[flagged(configs, n)[k] as int].source,
    decreases n,
{
    if n > 0 {
        lemma_flagged(configs, (n - 1) as nat);
        let before = flagged(configs, (n - 1) as nat);
        let now = flagged(configs, n);
        assert forall|k: int| 0 <= k < now.len() implies (#[trigger] now[k]) < n
            && configs[now[k] as int].source by {
            if k < before.len() {
                assert(now[k] == before[k]);
            }
        }
    }
}

/// No description has an error where the first error of all is none.
pub proof fn lemma_no_actor_error(
    configs: Seq<ActorConfig>,
    components: Map<Seq<char>, u16>,
    kinds: Seq<(String, ActorKind)>,
    labels: Seq<String>,
    n: nat,
    i: int,
)
    requires
        first_actor_error(configs, components, kinds, labels, n) is None,
        0 <= i < n,
    ensures
        actor_error(configs[i], components, kinds, labels) is None,
    decreases n,
{
    if i < n - 1 {
        lemma_no_actor_error(configs, components, kinds, labels, (n - 1) as nat, i);
    }
}

/// A network of well-formed actors that hold no token, each at its
/// place, with sound edges and stamps that fit, and a scheduler with
/// nothing pending, is in a sound state.
pub proof fn lemma_built_sound(actors: Seq<AnyActor>, queue: Seq<JobView>, now: u64)
    requires
        network_wf(actors),
        edges_ok(views(actors)),
        queue.len() == 0,
        forall|i: int|
            0 <= i < actors.len() ==> (#[trigger] actors[i])@.held().len() == 0
                && actors[i]@.outgoing().len() == 0,
        forall|i: int|
            0 <= i < actors.len() ==> ((#[trigger] actors[i])@ matches ActorView::Source(s)
                ==> s.place == i && s.total <= s.max_production && forall|k: int|
                0 <= k < actors.len() ==> s.code_product + (#[trigger] actors[k])@.code()
                    <= u16::MAX),
        forall|i: int|
            0 <= i < actors.len() ==> ((#[trigger] actors[i])@ matches ActorView::Transformer(t)
                ==> t.place == i),
    ensures
        (World { actors: views(actors), queue, now }).sound(),
{
    let shape = views(actors);
    assert forall|i: int| 0 <= i < shape.len() implies actor_ok(shape, now, i, #[trigger] shape[i]) by {
        assert(shape[i] == actors[i]@);
        assert(actors[i].wf());
        match shape[i] {
            ActorView::Source(s) => {
                assert(s.client.held == shape[i].outgoing());
                assert forall|k: int| 0 <= k < s.client.clients.len() implies edge_ok(
                    shape,
                    #[trigger] s.client.clients[k],
                ) by {
                    assert(s.client.clients[k] == shape[i].clients()[k]);
                }
                assert forall|k: int| 0 <= k < shape.len() implies s.code_product + (
                #[trigger] shape[k]).code() <= u16::MAX by {
                    assert(shape[k] == actors[k]@);
                }
            },
            ActorView::Transformer(t) => {
                assert(t.client.held == shape[i].outgoing());
                assert(t.held == shape[i].held());
                assert forall|k: int| 0 <= k < t.client.clients.len() implies edge_ok(
                    shape,
                    #[trigger] t.client.clients[k],
                ) by {
                    assert(t.client.clients[k] == shape[i].clients()[k]);
                }
            },
            ActorView::Sink(s) => {
                assert(s.held == shape[i].held());
            },
        }
    }
}

/// The network that `parsed` describes, with the kinds of actor in
/// `kinds` and the time distributions in `times`; or what is wrong with
/// the description.
pub fn parse_config(parsed: &ParsedConfig, kinds: &ActorRegistry, times: &TimeRegistry) -> (built:
    Result<Config, ParseError>)
    ensures
        match built {
            Ok(config) => config_error(*parsed, kinds.entries@, times.labels@) is None
                && config.describes(*parsed, kinds.entries@) && config.ready()
                && config.world().tokens() == 0 && config.world().balanced()
                && config.world().unrepeated() && distinct_actor_codes(views(config.actors@)),
            Err(e) => config_error(*parsed, kinds.entries@, times.labels@) == Some(e@),
        },
{
    let count = parsed.components.len();
    let offset = match actor_offset(count) {
        Some(offset) => offset,
        None => {
            return Err(ParseError::WrongFormat(String::from_str("components")));
        },
    };
    proof {
        lemma_offset_above(1, count as nat);
    }
    let n = parsed.actors.len();
    if n >= 0x1_0000 {
        proof {
            assert((n + 1) * offset > 0x1_0000) by (nonlinear_arith)
                requires
                    n >= 0x1_0000,
                    offset >= 1,
            ;
        }
        return Err(ParseError::WrongFormat(String::from_str("actors")));
    }
    proof {
        assert((n + 1) * offset <= 0x1_0000 * 0x1_0000) by (nonlinear_arith)
            requires
                0 <= n < 0x1_0000,
                0 <= offset < 0x1_0000,
        ;
    }
    if (n as u64 + 1) * (offset as u64) > 0x1_0000 {
        return Err(ParseError::WrongFormat(String::from_str("actors")));
    }
    let mut components = new_code_map();
    let mut i: usize = 0;
    proof {
        assert(code_pairs(components) =~= component_codes(parsed.components@, 0));
    }
    while i < count
        invariant
            i <= count,
            count == parsed.components@.len(),
            count <= 6553,
            code_pairs(components) == component_codes(parsed.components@, i as nat),
        decreases count - i,
    {
        pair_code(&mut components, parsed.components[i].clone(), (i + 1) as u16);
        i += 1;
    }
    let ghost comps = code_pairs(components);
    let ghost shape = described_all(parsed.actors@, offset, comps, kinds.entries@);
    let (actors, actors_codes) = match parse_actors(parsed, &components, offset, kinds, times) {
        Ok(built) => built,
        Err(e) => {
            return Err(e);
        },
    };
    proof {
        lemma_component_codes_bound(parsed.components@, count as nat);
        lemma_first_client_error_shape(parsed.actors@, shape, views(actors@), comps, n as nat);
        assert forall|name: Seq<char>, x: int|
            comps.contains_key(name) && 0 <= x < views(actors@).len() implies (
        #[trigger] comps[name]) + (#[trigger] views(actors@)[x]).code() <= u16::MAX by {
            lemma_codes_fit(parsed.actors@, offset, comps, kinds.entries@, n as nat, x, comps[name]);
            assert(shape[x].code() == views(actors@)[x].code());
        }
    }
    let actors_indices = get_actors_indices(&parsed.actors, &actors, &components);
    let init_sources = get_sources(&parsed.actors);
    let scheduler = Scheduler::new();
    proof {
        lemma_flagged(parsed.actors@, n as nat);
        assert forall|x: int| 0 <= x < n implies (#[trigger] actors@[x])@.held().len() == 0
            && actors@[x]@.outgoing().len() == 0 && (actors@[x]@ is Source <==> shape[x] is Source)
            && (actors@[x]@ matches ActorView::Source(s) ==> s.place == x && s.total
            <= s.max_production && comps.contains_key(parsed.actors@[x].product->0@)
            && s.code_product == comps[parsed.actors@[x].product->0@]) && (
        actors@[x]@ matches ActorView::Transformer(t) ==> t.place == x) by {
            lemma_wired_frame(
                shape[x],
                parsed.actors@,
                shape,
                x,
                parsed.actors@[x].clients@.len(),
            );
            lemma_no_actor_error(
                parsed.actors@,
                comps,
                kinds.entries@,
                times.labels@,
                n as nat,
                x,
            );
        }
        assert forall|x: int|
            0 <= x < n implies ((#[trigger] actors@[x])@ matches ActorView::Source(s)
            ==> s.place == x && s.total <= s.max_production && forall|k: int|
            0 <= k < n ==> s.code_product + (#[trigger] actors@[k])@.code() <= u16::MAX) by {
            match actors@[x]@ {
                ActorView::Source(s) => {
                    assert forall|k: int| 0 <= k < n implies s.code_product + (
                    #[trigger] actors@[k])@.code() <= u16::MAX by {
                        assert(views(actors@)[k] == actors@[k]@);
                        assert(comps[parsed.actors@[x].product->0@] + views(actors@)[k].code()
                            <= u16::MAX);
                    }
                },
                _ => {},
            }
        }
        lemma_built_sound(actors@, scheduler.queue(), scheduler.now());
        let built = world_of(actors@, scheduler);
        assert forall|x: int| 0 <= x < n implies (#[trigger] built.actors[x]).held().len() == 0
            && built.actors[x].outgoing().len() == 0 && (built.actors[x] matches ActorView::Source(
            s,
        ) ==> s.total == 0) && built.actors[x].code() == (x + 1) * offset by {
            assert(built.actors[x] == actors@[x]@);
            lemma_wired_frame(
                shape[x],
                parsed.actors@,
                shape,
                x,
                parsed.actors@[x].clients@.len(),
            );
            lemma_codes_fit(parsed.actors@, offset, comps, kinds.entries@, n as nat, x, 0);
        }
        built.lemma_empty_balanced();
        lemma_empty_unrepeated(built);
        assert forall|i: int, j: int| 0 <= i < j < n implies (#[trigger] built.actors[i]).code() != (
        #[trigger] built.actors[j]).code() by {
            assert((i + 1) * offset < (j + 1) * offset) by (nonlinear_arith)
                requires
                    0 <= i < j,
                    offset >= 1,
            ;
        }
        assert forall|k: int| 0 <= k < init_sources@.len() implies (#[trigger] init_sources@[k])
            < actors@.len() && actors@[init_sources@[k] as int] is Source by {
            let x = init_sources@[k] as int;
            lemma_no_actor_error(
                parsed.actors@,
                comps,
                kinds.entries@,
                times.labels@,
                n as nat,
                x,
            );
            assert(actors@[x]@ is Source <==> shape[x] is Source);
        }
    }
    Ok(
        Config {
            actors,
            init_sources,
            scheduler,
            loging_config: LogingConfig {
                actors_indices,
                components_codes: components,
                actors_codes,
                offset_id_actors: offset,
            },
        },
    )
}

/// The code of a component and the code of an actor add up to a code,
/// where the offset is above the codes of the components and the actors
/// are few enough for their codes.
pub proof fn lemma_codes_fit(
    configs: Seq<ActorConfig>,
    offset: u16,
    components: Map<Seq<char>, u16>,
    kinds: Seq<(String, ActorKind)>,
    n: nat,
    x: int,
    product: u16,
)
    requires
        n == configs.len(),
        0 <= x < n,
        product < offset,
        (n + 1) * offset <= 0x1_0000,
    ensures
        described_all(configs, offset, components, kinds)[x].code() == (x + 1) * offset,
        product + described_all(configs, offset, components, kinds)[x].code() <= u16::MAX,
{
    assert((x + 1) * offset + offset <= (n + 1) * offset) by (nonlinear_arith)
        requires
            0 <= x < n,
            offset >= 0,
    ;
    assert((x + 1) * offset >= 0) by (nonlinear_arith)
        requires
            0 <= x,
            offset >= 0,
    ;
}

} // verus!
