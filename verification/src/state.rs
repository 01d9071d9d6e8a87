//! The exporter and its generation cycle, step by step.

use vstd::prelude::*;
use vstd::string::StringExecFns;
use crate::discovery::{
    altnames,
    query,
    query_set,
    ticker_address,
    ticker_url,
    ASSETS,
    ASSET_PAIRS,
};
use crate::error::RestError;
use crate::exposition::exposition;
use crate::gauges::{
    collect,
    curtailed,
    lemma_samples_complete,
    samples,
    views,
    Sample,
    SampleView,
};
use crate::json::{json_document, Json};
use crate::labels::Strategy;
use crate::model::{
    answer_fits,
    answer_of,
    Asset,
    AssetPair,
    AssetPairView,
    AssetPairs,
    Assets,
    Info,
    Tickers,
};
use crate::registry::{
    lemma_set_all_parts,
    lemma_set_all_twice,
    lemma_set_all_wf,
    lemma_stored_all_keeps,
    Registry,
    RegistryView,
};
use crate::scrape::{
    all_clean,
    lemma_round_trip,
    lemma_samples_clean,
    lemma_set_all_clean,
    parsed,
};
use crate::table::{texts, Table, TableView};
use crate::text::{parse_unsigned, unsigned};

verus! {

/// What came back for a request.
#[derive(Debug)]
pub enum Reply {
    /// An answer, with its status code and its whole body.
    Status(u16, Vec<u8>),
    /// No answer: the name did not resolve, the connection or TLS failed, or
    /// the time ran out.
    Transport,
}

/// What a reply yields: the body of an answer with status 200, or the error
/// that stands for the status or for the failure.
pub open spec fn outcome(reply: Reply) -> Result<Vec<u8>, RestError> {
    match reply {
        Reply::Transport => Err(RestError::Transport),
        Reply::Status(code, body) => if code == 200 {
            Ok(body)
        } else if code == 401 {
            Err(RestError::Unauthorized)
        } else if code == 403 {
            Err(RestError::Forbidden)
        } else if code == 404 {
            Err(RestError::NotFound)
        } else {
            Err(RestError::Unknown)
        },
    }
}

/// What a generation cycle waits for.
#[derive(Debug)]
pub enum Event {
    /// It is time for a cycle.
    Start,
    /// The reply to the request that the last action asked for.
    Reply(Reply),
    /// The samples can be written.
    Publish,
    /// The time allowed for the whole cycle has run out. A cycle that still
    /// waits for a reply is abandoned.
    Deadline,
}

/// An event, with the body of a good answer read as a document.
#[derive(Debug)]
pub enum Input {
    Start,
    /// The request failed, or its answer was no document.
    Failure(RestError),
    Document(Json),
    Publish,
    Deadline,
}

/// What the caller is to do next.
#[derive(Debug)]
pub enum Action {
    /// Send a GET request to this address and hand in the reply.
    Fetch(String),
    /// Hand in `Event::Publish`. These are the codes of the tickers that did
    /// not give all their gauges.
    Publish(Vec<String>),
    /// The cycle is over, with this result.
    Done(Result<(), RestError>),
    /// The event did not apply; nothing changed.
    Nothing,
}

/// What an `Action` holds.
pub enum ActionView {
    Fetch(Seq<char>),
    Publish(Seq<Seq<char>>),
    Done(Result<(), RestError>),
    Nothing,
}

impl View for Action {
    type V = ActionView;

    open spec fn view(&self) -> ActionView {
        match self {
            Action::Fetch(url) => ActionView::Fetch(url@),
            Action::Publish(curtailed) => ActionView::Publish(texts(curtailed@)),
            Action::Done(result) => ActionView::Done(*result),
            Action::Nothing => ActionView::Nothing,
        }
    }
}

/// Where a generation cycle stands.
#[derive(Debug)]
pub enum Phase {
    /// No cycle is running, and the last one, if any, succeeded.
    Idle,
    /// The pairs are asked for: first `AssetPairs`, which is kept once it has
    /// arrived, then, where the strategy needs them, `Assets`.
    DiscoveringPairs(Option<AssetPairs>),
    /// The ticker of the pairs found is asked for.
    FetchingTickers(AssetPairs),
    /// The samples are ready to be written.
    Publishing(Vec<Sample>),
    /// No cycle is running, and the last one ended with this error.
    Failed(RestError),
}

/// What a `Phase` holds.
pub enum PhaseView {
    Idle,
    DiscoveringPairs(Option<TableView<AssetPairView>>),
    FetchingTickers(TableView<AssetPairView>),
    Publishing(Seq<SampleView>),
    Failed(RestError),
}

impl View for Phase {
    type V = PhaseView;

    open spec fn view(&self) -> PhaseView {
        match self {
            Phase::Idle => PhaseView::Idle,
            Phase::DiscoveringPairs(None) => PhaseView::DiscoveringPairs(None),
            Phase::DiscoveringPairs(Some(pairs)) => PhaseView::DiscoveringPairs(
                Some(pairs.result@),
            ),
            Phase::FetchingTickers(pairs) => PhaseView::FetchingTickers(pairs.result@),
            Phase::Publishing(pending) => PhaseView::Publishing(views(pending@)),
            Phase::Failed(e) => PhaseView::Failed(*e),
        }
    }
}

/// The exporter: its settings, the cycle that may be running, and the
/// gauges written so far.
#[derive(Debug)]
pub struct State {
    pub(crate) timeout: u64,
    pub(crate) strategy: Strategy,
    pub(crate) phase: Phase,
    pub(crate) registry: Registry,
}

/// What a `State` holds.
pub struct StateView {
    /// The time allowed for one request, in seconds.
    pub timeout: u64,
    pub strategy: Strategy,
    pub phase: PhaseView,
    pub registry: RegistryView,
}

impl View for State {
    type V = StateView;

    open(crate) spec fn view(&self) -> StateView {
        StateView {
            timeout: self.timeout,
            strategy: self.strategy,
            phase: self.phase@,
            registry: self.registry@,
        }
    }
}

/// The time for one request where none is given or what is given is no
/// number of seconds.
pub const DEFAULT_TIMEOUT: u64 = 60;

/// The port to listen on where none is given or what is given is no port.
pub const DEFAULT_PORT: u16 = 8080;

/// The seconds that `text` spells, or the default.
pub open spec fn timeout_of(text: Seq<char>) -> u64 {
    match unsigned(text, u64::MAX as nat) {
        Some(n) => n as u64,
        None => DEFAULT_TIMEOUT,
    }
}

/// The port that `text` spells, or the default.
pub open spec fn port_of(text: Seq<char>) -> u16 {
    match unsigned(text, u16::MAX as nat) {
        Some(n) => n as u16,
        None => DEFAULT_PORT,
    }
}

/// Reads the port to listen on. Anything but a number up to 65535 gives the
/// default.
pub fn listen_port(text: &str) -> (port: u16)
    ensures
        port == port_of(text@),
{
    match parse_unsigned(text, u16::MAX as u64) {
        Some(n) => n as u16,
        None => DEFAULT_PORT,
    }
}

/// How many requests a cycle makes.
pub open spec fn requests_of(strategy: Strategy) -> u64 {
    match strategy {
        Strategy::FromPairs => 2,
        Strategy::FromAssets => 3,
    }
}

/// The time allowed for a whole cycle: that of all its requests, as far as
/// 64 bits can tell.
pub open spec fn deadline_of(timeout: u64, strategy: Strategy) -> u64 {
    if timeout * requests_of(strategy) <= u64::MAX {
        (timeout * requests_of(strategy)) as u64
    } else {
        u64::MAX
    }
}

/// The event as the cycle reads it.
pub open spec fn input_of(event: Event) -> Input {
    match event {
        Event::Start => Input::Start,
        Event::Publish => Input::Publish,
        Event::Deadline => Input::Deadline,
        Event::Reply(reply) => match outcome(reply) {
            Err(e) => Input::Failure(e),
            Ok(body) => match json_document(body@) {
                Some(doc) => Input::Document(doc),
                None => Input::Failure(RestError::Decode),
            },
        },
    }
}

impl StateView {
    /// The state after a cycle was abandoned with the error `e`.
    pub open spec fn fail(self, e: RestError) -> (StateView, ActionView) {
        (StateView { phase: PhaseView::Failed(e), ..self }, ActionView::Done(Err(e)))
    }

    /// The state in another phase.
    pub open spec fn enter(self, phase: PhaseView) -> StateView {
        StateView { phase, ..self }
    }

    /// The request for the ticker of the pairs found.
    pub open spec fn ask_tickers(
        self,
        pairs: TableView<AssetPairView>,
        names: Seq<Seq<char>>,
    ) -> (StateView, ActionView) {
        (
            self.enter(PhaseView::FetchingTickers(pairs)),
            ActionView::Fetch(ticker_address(query_set(self.strategy, pairs.keys, names))),
        )
    }

    /// One step of the cycle: the state that follows, and what to do next.
    pub open spec fn step(self, input: Input) -> (StateView, ActionView) {
        match self.phase {
            PhaseView::Idle | PhaseView::Failed(_) => match input {
                Input::Start => (
                    self.enter(PhaseView::DiscoveringPairs(None)),
                    ActionView::Fetch(ASSET_PAIRS@),
                ),
                _ => (self, ActionView::Nothing),
            },
            PhaseView::DiscoveringPairs(None) => match input {
                Input::Failure(e) => self.fail(e),
                Input::Deadline => self.fail(RestError::Transport),
                Input::Document(doc) => if answer_fits::<AssetPair>(doc) {
                    let pairs = answer_of::<AssetPair>(doc);
                    match self.strategy {
                        Strategy::FromPairs => self.ask_tickers(pairs, Seq::empty()),
                        Strategy::FromAssets => (
                            self.enter(PhaseView::DiscoveringPairs(Some(pairs))),
                            ActionView::Fetch(ASSETS@),
                        ),
                    }
                } else {
                    self.fail(RestError::Decode)
                },
                _ => (self, ActionView::Nothing),
            },
            PhaseView::DiscoveringPairs(Some(pairs)) => match input {
                Input::Failure(e) => self.fail(e),
                Input::Deadline => self.fail(RestError::Transport),
                Input::Document(doc) => if answer_fits::<Asset>(doc) {
                    self.ask_tickers(pairs, altnames(answer_of::<Asset>(doc)))
                } else {
                    self.fail(RestError::Decode)
                },
                _ => (self, ActionView::Nothing),
            },
            PhaseView::FetchingTickers(pairs) => match input {
                Input::Failure(e) => self.fail(e),
                Input::Deadline => self.fail(RestError::Transport),
                Input::Document(doc) => if answer_fits::<Info>(doc) {
                    (
                        self.enter(
                            PhaseView::Publishing(
                                samples(self.strategy, pairs, answer_of::<Info>(doc)),
                            ),
                        ),
                        ActionView::Publish(
                            curtailed(self.strategy, pairs, answer_of::<Info>(doc)),
                        ),
                    )
                } else {
                    self.fail(RestError::Decode)
                },
                _ => (self, ActionView::Nothing),
            },
            PhaseView::Publishing(pending) => match input {
                Input::Publish => (
                    StateView {
                        phase: PhaseView::Idle,
                        registry: self.registry.set_all(pending),
                        ..self
                    },
                    ActionView::Done(Ok(())),
                ),
                _ => (self, ActionView::Nothing),
            },
        }
    }
}

impl Input {
    /// The input stands for a reply: a failure or a document.
    pub open spec fn is_reply(self) -> bool {
        self is Failure || self is Document
    }
}

/// The samples that the ticker reply yields for the pairs found, or the
/// error with which the cycle ends.
pub open spec fn harvest_tickers(
    strategy: Strategy,
    pairs: TableView<AssetPairView>,
    tickers: Input,
) -> Result<Seq<SampleView>, RestError> {
    match tickers {
        Input::Failure(e) => Err(e),
        Input::Document(doc) => if answer_fits::<Info>(doc) {
            Ok(samples(strategy, pairs, answer_of::<Info>(doc)))
        } else {
            Err(RestError::Decode)
        },
        _ => Err(RestError::Unknown),
    }
}

/// The samples that a cycle yields from the replies to its requests, or the
/// error with which it ends. The reply for `Assets` counts only where the
/// strategy asks for it.
pub open spec fn harvest(strategy: Strategy, pairs: Input, assets: Input, tickers: Input) -> Result<
    Seq<SampleView>,
    RestError,
> {
    match pairs {
        Input::Failure(e) => Err(e),
        Input::Document(doc) => if answer_fits::<AssetPair>(doc) {
            match strategy {
                Strategy::FromPairs => harvest_tickers(
                    strategy,
                    answer_of::<AssetPair>(doc),
                    tickers,
                ),
                Strategy::FromAssets => match assets {
                    Input::Failure(e) => Err(e),
                    Input::Document(listing) => if answer_fits::<Asset>(listing) {
                        harvest_tickers(strategy, answer_of::<AssetPair>(doc), tickers)
                    } else {
                        Err(RestError::Decode)
                    },
                    _ => Err(RestError::Unknown),
                },
            }
        } else {
            Err(RestError::Decode)
        },
        _ => Err(RestError::Unknown),
    }
}

impl StateView {
    /// No cycle is under way.
    pub open spec fn is_idle(self) -> bool {
        self.phase is Idle || self.phase is Failed
    }

    /// The state after one whole cycle: from the start through the replies
    /// to its requests to the writing of the samples. The reply for
    /// `Assets` is handed in only where the strategy asks for it.
    pub open spec fn cycle(self, pairs: Input, assets: Input, tickers: Input) -> StateView {
        let found = self.step(Input::Start).0.step(pairs).0;
        let asked = match self.strategy {
            Strategy::FromPairs => found,
            Strategy::FromAssets => found.step(assets).0,
        };
        asked.step(tickers).0.step(Input::Publish).0
    }
}

/// Every sample of `list` has its three labels, none of them empty.
pub open spec fn all_complete(list: Seq<SampleView>) -> bool {
    forall|i: int| 0 <= i < list.len() ==> (#[trigger] list[i]).labels.complete()
}

impl StateView {
    /// The registry is well formed, and every sample, written or waiting to
    /// be written, has its three labels and can be read back from the
    /// exposition.
    pub open spec fn wf(self) -> bool {
        &&& self.registry.wf()
        &&& self.registry.clean()
        &&& all_complete(self.registry.samples)
        &&& self.phase matches PhaseView::Publishing(pending) ==> all_complete(pending)
            && all_clean(pending)
    }
}

/// A step of the cycle keeps the state well formed.
pub proof fn lemma_step_wf(state: StateView, input: Input)
    requires
        state.wf(),
    ensures
        state.step(input).0.wf(),
{
    let after = state.step(input).0;
    match state.phase {
        PhaseView::FetchingTickers(pairs) => {
            if let Input::Document(doc) = input {
                lemma_samples_complete(
                    state.strategy,
                    pairs,
                    answer_of::<Info>(doc),
                );
                lemma_samples_clean(state.strategy, pairs, answer_of::<Info>(doc));
            }
        },
        PhaseView::Publishing(pending) => {
            lemma_set_all_wf(state.registry, pending);
            lemma_set_all_clean(state.registry, pending);
            lemma_set_all_parts(state.registry, pending);
            lemma_stored_all_keeps(
                state.registry.samples,
                pending,
                |s: SampleView| s.labels.complete(),
            );
        },
        _ => {},
    }
}

/// The phases follow one another in order: the ticker is asked for only
/// after the discovery, samples are made ready only from the ticker's
/// answer, and a cycle ends only where one was under way.
pub proof fn lemma_order(state: StateView, input: Input)
    ensures
        state.step(input).0.phase is FetchingTickers ==> state.phase is DiscoveringPairs
            || state.phase is FetchingTickers,
        state.step(input).0.phase is Publishing ==> state.phase is FetchingTickers
            || state.phase is Publishing,
        state.step(input).0.phase is DiscoveringPairs ==> state.is_idle()
            || state.phase is DiscoveringPairs,
        state.step(input).1 is Done ==> !state.is_idle() && state.step(input).0.is_idle(),
        state.step(input).1 is Fetch ==> !state.step(input).0.is_idle(),
        state.step(input).1 is Nothing ==> state.step(input).0 == state,
{
}

/// Once the samples are ready, the cycle cannot fail: it waits, or it
/// writes them and is over.
pub proof fn lemma_publishing_succeeds(state: StateView, input: Input)
    requires
        state.phase is Publishing,
    ensures
        state.step(input) == (state, ActionView::Nothing) || (state.step(input).0.phase is Idle
            && state.step(input).1 == ActionView::Done(Ok(()))),
{
}

/// Only the writing of the samples changes the registry; the settings never
/// change.
pub proof fn lemma_step_keeps(state: StateView, input: Input)
    ensures
        state.step(input).0.timeout == state.timeout,
        state.step(input).0.strategy == state.strategy,
        !(state.phase is Publishing && input is Publish) ==> state.step(input).0.registry
            == state.registry,
        state.registry.wf() ==> state.step(input).0.registry.wf(),
{
    if let PhaseView::Publishing(pending) = state.phase {
        if state.registry.wf() {
            lemma_set_all_wf(state.registry, pending);
        }
    }
}

/// What a whole cycle comes to: where its replies yield samples, they are
/// written and the exporter is idle again; where they do not, the cycle has
/// failed with the error and the registry is as it was.
pub proof fn lemma_cycle(state: StateView, pairs: Input, assets: Input, tickers: Input)
    requires
        state.is_idle(),
        pairs.is_reply(),
        assets.is_reply(),
        tickers.is_reply(),
    ensures
        state.cycle(pairs, assets, tickers) == match harvest(
            state.strategy,
            pairs,
            assets,
            tickers,
        ) {
            Ok(list) => StateView {
                phase: PhaseView::Idle,
                registry: state.registry.set_all(list),
                ..state
            },
            Err(e) => StateView { phase: PhaseView::Failed(e), ..state },
        },
{
}

/// A cycle whose discovery fails leaves the registry as it was, and ends
/// with the error of the failure.
pub proof fn lemma_failed_discovery(
    state: StateView,
    e: RestError,
    assets: Input,
    tickers: Input,
)
    requires
        state.is_idle(),
        assets.is_reply(),
        tickers.is_reply(),
    ensures
        state.cycle(Input::Failure(e), assets, tickers).registry == state.registry,
        state.cycle(Input::Failure(e), assets, tickers).phase == PhaseView::Failed(e),
{
    lemma_cycle(state, Input::Failure(e), assets, tickers);
}

/// A cycle that fails at any request leaves the registry as it was.
pub proof fn lemma_failed_cycle(state: StateView, pairs: Input, assets: Input, tickers: Input)
    requires
        state.is_idle(),
        pairs.is_reply(),
        assets.is_reply(),
        tickers.is_reply(),
        state.cycle(pairs, assets, tickers).phase is Failed,
    ensures
        state.cycle(pairs, assets, tickers).registry == state.registry,
{
    lemma_cycle(state, pairs, assets, tickers);
}

/// Two cycles in a row with the same replies leave the registry, and so the
/// exposition, as one cycle leaves them.
pub proof fn lemma_cycle_twice(state: StateView, pairs: Input, assets: Input, tickers: Input)
    requires
        state.is_idle(),
        state.registry.wf(),
        pairs.is_reply(),
        assets.is_reply(),
        tickers.is_reply(),
    ensures
        state.cycle(pairs, assets, tickers).cycle(pairs, assets, tickers).registry == state.cycle(
            pairs,
            assets,
            tickers,
        ).registry,
        exposition(
            state.cycle(pairs, assets, tickers).cycle(pairs, assets, tickers).registry,
        ) == exposition(state.cycle(pairs, assets, tickers).registry),
{
    let once = state.cycle(pairs, assets, tickers);
    lemma_cycle(state, pairs, assets, tickers);
    lemma_cycle(once, pairs, assets, tickers);
    match harvest(state.strategy, pairs, assets, tickers) {
        Ok(list) => {
            lemma_set_all_twice(state.registry, list);
        },
        Err(_) => {},
    }
}

/// A whole cycle keeps the state well formed: every sample in the registry
/// has its three labels, none of them empty.
pub proof fn lemma_cycle_wf(state: StateView, pairs: Input, assets: Input, tickers: Input)
    requires
        state.wf(),
    ensures
        state.cycle(pairs, assets, tickers).wf(),
{
    let started = state.step(Input::Start).0;
    lemma_step_wf(state, Input::Start);
    let found = started.step(pairs).0;
    lemma_step_wf(started, pairs);
    let asked = match state.strategy {
        Strategy::FromPairs => found,
        Strategy::FromAssets => found.step(assets).0,
    };
    lemma_step_wf(found, assets);
    lemma_step_keeps(state, Input::Start);
    lemma_step_keeps(started, pairs);
    let fetched = asked.step(tickers).0;
    lemma_step_wf(asked, tickers);
    lemma_step_wf(fetched, Input::Publish);
}

/// What is rendered after a cycle can be read back: reading the exposition
/// gives the samples of the registry, each as often as there.
pub proof fn lemma_cycle_round_trip(
    state: StateView,
    pairs: Input,
    assets: Input,
    tickers: Input,
)
    requires
        state.wf(),
    ensures
        parsed(
            exposition(state.cycle(pairs, assets, tickers).registry),
        ) matches Some(read) && read.to_multiset() == state.cycle(
            pairs,
            assets,
            tickers,
        ).registry.samples.to_multiset(),
{
    lemma_cycle_wf(state, pairs, assets, tickers);
    lemma_round_trip(state.cycle(pairs, assets, tickers).registry);
}

/// Every sample that a cycle writes has its three labels, none of them
/// empty.
pub proof fn lemma_cycle_labels(strategy: Strategy, pairs: Input, assets: Input, tickers: Input)
    ensures
        harvest(strategy, pairs, assets, tickers) matches Ok(list) ==> forall|i: int|
            0 <= i < list.len() ==> (#[trigger] list[i]).labels.complete(),
{
    if let Input::Document(doc) = pairs {
        if let Input::Document(answer) = tickers {
            lemma_samples_complete(
                strategy,
                answer_of::<AssetPair>(doc),
                answer_of::<Info>(answer),
            );
        }
    }
}

impl State {
    /// An exporter that finds its pairs in `AssetPairs`, with no gauges yet.
    /// `timeout` is the time for one request in seconds, as text; anything
    /// but a number gives the default.
    pub fn new(timeout: &str) -> (state: State)
        ensures
            state@.timeout == timeout_of(timeout@),
            state@.strategy == Strategy::FromPairs,
            state@.phase == PhaseView::Idle,
            state@.registry.families.len() == 0,
            state@.registry.samples.len() == 0,
            state@.wf(),
    {
        State::with_strategy(timeout, Strategy::FromPairs)
    }

    /// As `new`, with the strategy chosen.
    pub fn with_strategy(timeout: &str, strategy: Strategy) -> (state: State)
        ensures
            state@.timeout == timeout_of(timeout@),
            state@.strategy == strategy,
            state@.phase == PhaseView::Idle,
            state@.registry.families.len() == 0,
            state@.registry.samples.len() == 0,
            state@.wf(),
    {
        let timeout = match parse_unsigned(timeout, u64::MAX) {
            Some(n) => n,
            None => DEFAULT_TIMEOUT,
        };
        State { timeout, strategy, phase: Phase::Idle, registry: Registry::new() }
    }

    /// The time allowed for one request, in seconds.
    pub fn timeout(&self) -> (seconds: u64)
        ensures
            seconds == self@.timeout,
    {
        self.timeout
    }

    /// How the pairs are found and labelled.
    pub fn strategy(&self) -> (strategy: Strategy)
        ensures
            strategy == self@.strategy,
    {
        self.strategy
    }

    /// Where the cycle stands.
    pub fn phase(&self) -> (phase: &Phase)
        ensures
            phase@ == self@.phase,
    {
        &self.phase
    }

    /// The gauges written so far.
    pub fn registry(&self) -> (registry: &Registry)
        ensures
            registry@ == self@.registry,
    {
        &self.registry
    }

    /// Whether a cycle is under way.
    pub fn is_running(&self) -> (b: bool)
        ensures
            b == !(self@.phase is Idle || self@.phase is Failed),
    {
        match self.phase {
            Phase::Idle => false,
            Phase::Failed(_) => false,
            _ => true,
        }
    }

    /// Judges a reply: the body of an answer with status 200, or the error.
    pub fn get(&self, reply: Reply) -> (r: Result<Vec<u8>, RestError>)
        ensures
            r == outcome(reply),
    {
        match reply {
            Reply::Transport => Err(RestError::Transport),
            Reply::Status(code, body) => match code {
                200 => Ok(body),
                401 => Err(RestError::Unauthorized),
                403 => Err(RestError::Forbidden),
                404 => Err(RestError::NotFound),
                _ => Err(RestError::Unknown),
            },
        }
    }

    /// Reads an event: the body of a good answer becomes a document.
    pub fn read(&self, event: Event) -> (input: Input)
        ensures
            input == input_of(event),
    {
        match event {
            Event::Start => Input::Start,
            Event::Publish => Input::Publish,
            Event::Deadline => Input::Deadline,
            Event::Reply(reply) => match self.get(reply) {
                Err(e) => Input::Failure(e),
                Ok(body) => match Json::parse(body.as_slice()) {
                    Ok(doc) => Input::Document(doc),
                    Err(e) => Input::Failure(e),
                },
            },
        }
    }

    /// Takes the cycle one step further: from the event that arrived to the
    /// next thing to do.
    pub fn generate(&mut self, event: Event) -> (action: Action)
        ensures
            (final(self)@, action@) == old(self)@.step(input_of(event)),
            old(self)@.wf() ==> final(self)@.wf(),
    {
        let input = self.read(event);
        self.advance(input)
    }

    /// Ends the cycle with the error `e`.
    fn abandon(&mut self, e: RestError) -> (action: Action)
        ensures
            (final(self)@, action@) == old(self)@.fail(e),
    {
        self.phase = Phase::Failed(e);
        Action::Done(Err(e))
    }

    /// Goes on to ask for the ticker of `codes`.
    fn ask(&mut self, pairs: AssetPairs, codes: Vec<String>) -> (action: Action)
        ensures
            final(self)@ == old(self)@.enter(PhaseView::FetchingTickers(pairs.result@)),
            action@ == ActionView::Fetch(ticker_address(texts(codes@))),
    {
        let url = ticker_url(&codes);
        self.phase = Phase::FetchingTickers(pairs);
        Action::Fetch(url)
    }

    /// One step of the cycle, on an event that has been read.
    pub fn advance(&mut self, input: Input) -> (action: Action)
        ensures
            (final(self)@, action@) == old(self)@.step(input),
            old(self)@.wf() ==> final(self)@.wf(),
    {
        proof {
            if self@.wf() {
                lemma_step_wf(self@, input);
            }
        }
        let mut phase = Phase::Idle;
        core::mem::swap(&mut self.phase, &mut phase);
        match phase {
            Phase::Idle => match input {
                Input::Start => {
                    self.phase = Phase::DiscoveringPairs(None);
                    Action::Fetch(String::from_str(ASSET_PAIRS))
                },
                _ => Action::Nothing,
            },
            Phase::Failed(e) => match input {
                Input::Start => {
                    self.phase = Phase::DiscoveringPairs(None);
                    Action::Fetch(String::from_str(ASSET_PAIRS))
                },
                _ => {
                    self.phase = Phase::Failed(e);
                    Action::Nothing
                },
            },
            Phase::DiscoveringPairs(None) => match input {
                Input::Failure(e) => self.abandon(e),
                Input::Deadline => self.abandon(RestError::Transport),
                Input::Document(doc) => match AssetPairs::decode(&doc) {
                    Ok(pairs) => match self.strategy {
                        Strategy::FromPairs => {
                            let codes = query(self.strategy, &pairs.result, &Table::new());
                            self.ask(pairs, codes)
                        },
                        Strategy::FromAssets => {
                            self.phase = Phase::DiscoveringPairs(Some(pairs));
                            Action::Fetch(String::from_str(ASSETS))
                        },
                    },
                    Err(e) => self.abandon(e),
                },
                _ => {
                    self.phase = Phase::DiscoveringPairs(None);
                    Action::Nothing
                },
            },
            Phase::DiscoveringPairs(Some(pairs)) => match input {
                Input::Failure(e) => self.abandon(e),
                Input::Deadline => self.abandon(RestError::Transport),
                Input::Document(doc) => match Assets::decode(&doc) {
                    Ok(assets) => {
                        let codes = query(self.strategy, &pairs.result, &assets.result);
                        self.ask(pairs, codes)
                    },
                    Err(e) => self.abandon(e),
                },
                _ => {
                    self.phase = Phase::DiscoveringPairs(Some(pairs));
                    Action::Nothing
                },
            },
            Phase::FetchingTickers(pairs) => match input {
                Input::Failure(e) => self.abandon(e),
                Input::Deadline => self.abandon(RestError::Transport),
                Input::Document(doc) => match Tickers::decode(&doc) {
                    Ok(tickers) => {
                        let (pending, short) = collect(
                            self.strategy,
                            &pairs.result,
                            &tickers.result,
                        );
                        self.phase = Phase::Publishing(pending);
                        Action::Publish(short)
                    },
                    Err(e) => self.abandon(e),
                },
                _ => {
                    self.phase = Phase::FetchingTickers(pairs);
                    Action::Nothing
                },
            },
            Phase::Publishing(pending) => match input {
                Input::Publish => {
                    self.registry.set_all(pending);
                    self.phase = Phase::Idle;
                    Action::Done(Ok(()))
                },
                _ => {
                    self.phase = Phase::Publishing(pending);
                    Action::Nothing
                },
            },
        }
    }

    /// The time allowed for a whole cycle, in seconds. When it has run out,
    /// `Event::Deadline` abandons the cycle.
    pub fn deadline(&self) -> (seconds: u64)
        ensures
            seconds == deadline_of(self@.timeout, self@.strategy),
    {
        let requests: u64 = match self.strategy {
            Strategy::FromPairs => 2,
            Strategy::FromAssets => 3,
        };
        match self.timeout.checked_mul(requests) {
            Some(seconds) => seconds,
            None => u64::MAX,
        }
    }

    /// The time from the start of one cycle to the start of the next, in
    /// seconds: the time wanted, but no less than the time allowed for one
    /// request.
    pub fn interval(&self, wanted: u64) -> (seconds: u64)
        ensures
            seconds == if wanted >= self@.timeout {
                wanted
            } else {
                self@.timeout
            },
    {
        if wanted >= self.timeout {
            wanted
        } else {
            self.timeout
        }
    }

    /// The gauges in the text format of Prometheus.
    pub fn render(&self) -> (text: String)
        ensures
            text@ == exposition(self@.registry),
    {
        self.registry.render()
    }
}

} // verus!
