//! The meta resolver: from declared dependencies to a populated store.
//!
//! Every identifier has a priority chain of sources: the local files that
//! the configuration names for it, then, unless only local data may be used,
//! the subgraph endpoints in configured order. The first source of the chain
//! that yields a payload wins. Reading files and querying endpoints is the
//! caller's work: `resolve` is handed the responses gathered so far and
//! either names the next request it needs an answer to, or finishes.

use vstd::prelude::*;
use crate::config::{IncludeEntryView, RainConfig, RainConfigView, SubgraphEntryView};
use crate::store::{MetaRecord, MetaRecordView, MetaStore, Source, SourceView};
use crate::text::{lemma_contains_last, lemma_push_deep_view};

verus! {

/// A place to ask for the metadata of an identifier.
#[derive(Debug, PartialEq, Eq)]
pub enum Target {
    /// The local file at this path.
    Local(String),
    /// The subgraph endpoint with this URL.
    Subgraph(String),
}

/// The model of `Target`: the same value over sequences of characters.
pub enum TargetView {
    Local(Seq<char>),
    Subgraph(Seq<char>),
}

impl View for Target {
    type V = TargetView;

    open spec fn view(&self) -> TargetView {
        match self {
            Target::Local(path) => TargetView::Local(path@),
            Target::Subgraph(url) => TargetView::Subgraph(url@),
        }
    }
}

impl DeepView for Target {
    type V = TargetView;

    open spec fn deep_view(&self) -> TargetView {
        self@
    }
}

/// One question to one source.
#[derive(Debug, PartialEq, Eq)]
pub struct Request {
    pub id: String,
    pub target: Target,
}

/// The model of `Request`: the same value over sequences of characters.
pub struct RequestView {
    pub id: Seq<char>,
    pub target: TargetView,
}

impl View for Request {
    type V = RequestView;

    open spec fn view(&self) -> RequestView {
        RequestView { id: self.id@, target: self.target@ }
    }
}

impl DeepView for Request {
    type V = RequestView;

    open spec fn deep_view(&self) -> RequestView {
        self@
    }
}

/// What a source answered: a payload, or nothing (the source does not hold
/// the identifier, or could not be reached).
#[derive(Debug, PartialEq, Eq)]
pub struct Response {
    pub request: Request,
    pub payload: Option<String>,
}

/// The model of `Response`: the same value over sequences of characters.
pub struct ResponseView {
    pub request: RequestView,
    pub payload: Option<Seq<char>>,
}

impl View for Response {
    type V = ResponseView;

    open spec fn view(&self) -> ResponseView {
        ResponseView { request: self.request@, payload: self.payload.deep_view() }
    }
}

impl DeepView for Response {
    type V = ResponseView;

    open spec fn deep_view(&self) -> ResponseView {
        self@
    }
}

/// A finished resolution: the store, and the identifiers that no source
/// yielded, in the order in which they were asked for.
#[derive(Debug)]
pub struct Resolution {
    pub store: MetaStore,
    pub unresolved: Vec<String>,
}

/// The model of `Resolution`: the same value over sequences of characters.
pub struct ResolutionView {
    pub store: Map<Seq<char>, MetaRecordView>,
    pub unresolved: Seq<Seq<char>>,
}

impl View for Resolution {
    type V = ResolutionView;

    open spec fn view(&self) -> ResolutionView {
        ResolutionView { store: self.store@, unresolved: self.unresolved.deep_view() }
    }
}

/// Where a resolution stands.
#[derive(Debug)]
pub enum Progress {
    /// This request has to be answered before the resolution can go on.
    Fetch(Request),
    /// Every identifier is settled.
    Done(Resolution),
}

/// The model of `Progress`: the same value over sequences of characters.
pub enum ProgressView {
    Fetch(RequestView),
    Done(ResolutionView),
}

impl View for Progress {
    type V = ProgressView;

    open spec fn view(&self) -> ProgressView {
        match self {
            Progress::Fetch(request) => ProgressView::Fetch(request@),
            Progress::Done(resolution) => ProgressView::Done(resolution@),
        }
    }
}

/// Why a resolution failed.
#[derive(Debug, PartialEq, Eq)]
pub enum ResolveError {
    /// No source yielded this identifier, and force mode is off.
    Unresolved(String),
}

/// The model of `ResolveError`: the same value over sequences of characters.
pub enum ResolveErrorView {
    Unresolved(Seq<char>),
}

impl View for ResolveError {
    type V = ResolveErrorView;

    open spec fn view(&self) -> ResolveErrorView {
        match self {
            ResolveError::Unresolved(id) => ResolveErrorView::Unresolved(id@),
        }
    }
}

/// An entry is consulted unless it is flagged `skip` and force mode is on.
pub open spec fn consulted(skip: bool, force: bool) -> bool {
    !(skip && force)
}

/// The local files to ask for `id`, in configured order.
pub open spec fn local_chain(includes: Seq<IncludeEntryView>, id: Seq<char>, force: bool) -> Seq<
    TargetView,
>
    decreases includes.len(),
{
    if includes.len() == 0 {
        Seq::empty()
    } else {
        let front = local_chain(includes.drop_last(), id, force);
        let entry = includes.last();
        if entry.id == id && consulted(entry.skip, force) {
            front.push(TargetView::Local(entry.path))
        } else {
            front
        }
    }
}

/// The subgraph endpoints to ask, in configured order.
pub open spec fn remote_chain(subgraphs: Seq<SubgraphEntryView>, force: bool) -> Seq<TargetView>
    decreases subgraphs.len(),
{
    if subgraphs.len() == 0 {
        Seq::empty()
    } else {
        let front = remote_chain(subgraphs.drop_last(), force);
        let entry = subgraphs.last();
        if consulted(entry.skip, force) {
            front.push(TargetView::Subgraph(entry.url))
        } else {
            front
        }
    }
}

/// The priority chain of `id`: local files first, then the endpoints unless
/// only local data may be used.
pub open spec fn chain(config: RainConfigView, id: Seq<char>, local_only: bool, force: bool) -> Seq<
    TargetView,
> {
    if local_only {
        local_chain(config.includes, id, force)
    } else {
        local_chain(config.includes, id, force) + remote_chain(config.subgraphs, force)
    }
}

/// What `responses` holds for `request`: `None` while it is unanswered, else
/// the payload of the first response to it.
pub open spec fn answer(responses: Seq<ResponseView>, request: RequestView) -> Option<
    Option<Seq<char>>,
>
    decreases responses.len(),
{
    if responses.len() == 0 {
        None
    } else {
        match answer(responses.drop_last(), request) {
            Some(payload) => Some(payload),
            None => if responses.last().request == request {
                Some(responses.last().payload)
            } else {
                None
            },
        }
    }
}

/// How far the responses carry along a chain.
pub enum Walk {
    /// The source at `at` yielded `payload`, and every source before it
    /// answered with nothing.
    Found { at: int, payload: Seq<char> },
    /// The source at `at` has not answered yet, and every source before it
    /// answered with nothing.
    Ask { at: int },
    /// Every source of the chain answered with nothing.
    Exhausted,
}

/// How far the responses carry along `targets` from `from` on.
pub open spec fn walk(
    responses: Seq<ResponseView>,
    id: Seq<char>,
    targets: Seq<TargetView>,
    from: int,
) -> Walk
    decreases targets.len() - from,
{
    if from < 0 || from >= targets.len() {
        Walk::Exhausted
    } else {
        match answer(responses, RequestView { id, target: targets[from] }) {
            None => Walk::Ask { at: from },
            Some(Some(payload)) => Walk::Found { at: from, payload },
            Some(None) => walk(responses, id, targets, from + 1),
        }
    }
}

/// The source that a target stands for in a record.
pub open spec fn origin(target: TargetView) -> SourceView {
    match target {
        TargetView::Local(_) => SourceView::Local,
        TargetView::Subgraph(url) => SourceView::Subgraph(url),
    }
}

/// The record that a payload from `target` makes.
pub open spec fn record_of(
    id: Seq<char>,
    target: TargetView,
    payload: Seq<char>,
) -> MetaRecordView {
    MetaRecordView { id, payload, source: origin(target) }
}

/// All that a resolution depends on besides the identifiers.
pub struct Setting {
    pub config: RainConfigView,
    pub local_only: bool,
    pub force: bool,
    pub responses: Seq<ResponseView>,
}

impl Setting {
    /// The priority chain of `id`.
    pub open spec fn chain(self, id: Seq<char>) -> Seq<TargetView> {
        chain(self.config, id, self.local_only, self.force)
    }

    /// How far the responses carry along the chain of `id`.
    pub open spec fn lookup(self, id: Seq<char>) -> Walk {
        walk(self.responses, id, self.chain(id), 0)
    }

    /// The record of `id`, where a source yielded one.
    pub open spec fn found(self, id: Seq<char>) -> Option<MetaRecordView> {
        match self.lookup(id) {
            Walk::Found { at, payload } => Some(record_of(id, self.chain(id)[at], payload)),
            _ => None,
        }
    }
}

/// The resolution of `ids`, one identifier after the other. An identifier
/// whose chain needs an answer stops the resolution with that request. One
/// whose chain is exhausted is recorded as unresolved in force mode, and
/// fails the resolution otherwise. A payload is written to the store under
/// its identifier unless the identifier already has a record.
pub open spec fn resolved(ids: Seq<Seq<char>>, setting: Setting) -> Result<
    ProgressView,
    ResolveErrorView,
>
    decreases ids.len(),
{
    if ids.len() == 0 {
        Ok(ProgressView::Done(ResolutionView { store: Map::empty(), unresolved: Seq::empty() }))
    } else {
        match resolved(ids.drop_last(), setting) {
            Err(error) => Err(error),
            Ok(ProgressView::Fetch(request)) => Ok(ProgressView::Fetch(request)),
            Ok(ProgressView::Done(so_far)) => {
                let id = ids.last();
                match setting.lookup(id) {
                    Walk::Ask { at } => Ok(
                        ProgressView::Fetch(RequestView { id, target: setting.chain(id)[at] }),
                    ),
                    Walk::Found { at, payload } => Ok(
                        ProgressView::Done(
                            ResolutionView {
                                store: if so_far.store.contains_key(id) {
                                    so_far.store
                                } else {
                                    so_far.store.insert(
                                        id,
                                        record_of(id, setting.chain(id)[at], payload),
                                    )
                                },
                                unresolved: so_far.unresolved,
                            },
                        ),
                    ),
                    Walk::Exhausted => if setting.force {
                        Ok(
                            ProgressView::Done(
                                ResolutionView {
                                    store: so_far.store,
                                    unresolved: so_far.unresolved.push(id),
                                },
                            ),
                        )
                    } else {
                        Err(ResolveErrorView::Unresolved(id))
                    },
                }
            },
        }
    }
}

/// Whether a result is the one that `expected` describes.
pub open spec fn progress_is(
    result: Result<Progress, ResolveError>,
    expected: Result<ProgressView, ResolveErrorView>,
) -> bool {
    match (result, expected) {
        (Ok(progress), Ok(view)) => progress@ == view,
        (Err(error), Err(view)) => error@ == view,
        _ => false,
    }
}

/// Once a request is answered, more responses do not change the answer.
proof fn lemma_answer_stays(responses: Seq<ResponseView>, request: RequestView, n: int)
    requires
        0 <= n <= responses.len(),
        answer(responses.take(n), request) is Some,
    ensures
        answer(responses, request) == answer(responses.take(n), request),
    decreases responses.len() - n,
{
    if n < responses.len() {
        assert(responses.take(n + 1).drop_last() =~= responses.take(n));
        lemma_answer_stays(responses, request, n + 1);
    } else {
        assert(responses.take(n) =~= responses);
    }
}

/// A walk ends inside the chain, behind sources that all answered with
/// nothing.
pub proof fn lemma_walk(
    responses: Seq<ResponseView>,
    id: Seq<char>,
    targets: Seq<TargetView>,
    from: int,
)
    requires
        0 <= from <= targets.len(),
    ensures
        match walk(responses, id, targets, from) {
            Walk::Found { at, payload } => from <= at < targets.len() && answer(
                responses,
                RequestView { id, target: targets[at] },
            ) == Some(Some(payload)) && forall|k: int|
                from <= k < at ==> answer(
                    responses,
                    RequestView { id, target: #[trigger] targets[k] },
                ) == Some(None::<Seq<char>>),
            Walk::Ask { at } => from <= at < targets.len() && answer(
                responses,
                RequestView { id, target: targets[at] },
            ) is None && forall|k: int|
                from <= k < at ==> answer(
                    responses,
                    RequestView { id, target: #[trigger] targets[k] },
                ) == Some(None::<Seq<char>>),
            Walk::Exhausted => forall|k: int|
                from <= k < targets.len() ==> answer(
                    responses,
                    RequestView { id, target: #[trigger] targets[k] },
                ) == Some(None::<Seq<char>>),
        },
    decreases targets.len() - from,
{
    if from < targets.len() {
        if answer(responses, RequestView { id, target: targets[from] }) == Some(
            None::<Seq<char>>,
        ) {
            lemma_walk(responses, id, targets, from + 1);
        }
    }
}

/// A copy of `target`.
fn copy_target(target: &Target) -> (copy: Target)
    ensures
        copy@ == target@,
{
    match target {
        Target::Local(path) => Target::Local(path.clone()),
        Target::Subgraph(url) => Target::Subgraph(url.clone()),
    }
}

/// Whether `a` and `b` name the same place.
fn same_target(a: &Target, b: &Target) -> (same: bool)
    ensures
        same == (a@ == b@),
{
    match (a, b) {
        (Target::Local(x), Target::Local(y)) => *x == *y,
        (Target::Subgraph(x), Target::Subgraph(y)) => *x == *y,
        _ => false,
    }
}

/// The source that `target` stands for in a record.
fn source_of(target: &Target) -> (source: Source)
    ensures
        source@ == origin(target@),
{
    match target {
        Target::Local(_) => Source::Local,
        Target::Subgraph(url) => Source::Subgraph(url.clone()),
    }
}

/// The priority chain of `id`.
pub fn plan(id: &String, config: &RainConfig, local_only: bool, force: bool) -> (targets: Vec<
    Target,
>)
    ensures
        targets.deep_view() == chain(config@, id@, local_only, force),
{
    let mut targets: Vec<Target> = Vec::new();
    let includes = config.includes();
    let ghost all = config@.includes;
    let mut i: usize = 0;
    while i < includes.len()
        invariant
            i <= includes.len(),
            all == includes.deep_view(),
            targets.deep_view() == local_chain(all.take(i as int), id@, force),
        decreases includes.len() - i,
    {
        proof {
            assert(all.take(i + 1).drop_last() =~= all.take(i as int));
        }
        let entry = &includes[i];
        if entry.id == *id && !(entry.skip && force) {
            let ghost before = targets;
            let target = Target::Local(entry.path.clone());
            let ghost pushed = target;
            targets.push(target);
            proof {
                lemma_push_deep_view(before, targets, pushed);
            }
        }
        i += 1;
    }
    assert(all.take(includes.len() as int) =~= all);
    if local_only {
        return targets;
    }
    let subgraphs = config.subgraphs();
    let ghost local = targets.deep_view();
    let ghost remote = config@.subgraphs;
    let mut k: usize = 0;
    while k < subgraphs.len()
        invariant
            k <= subgraphs.len(),
            remote == subgraphs.deep_view(),
            targets.deep_view() == local + remote_chain(remote.take(k as int), force),
        decreases subgraphs.len() - k,
    {
        proof {
            assert(remote.take(k + 1).drop_last() =~= remote.take(k as int));
        }
        let entry = &subgraphs[k];
        if !(entry.skip && force) {
            let ghost before = targets;
            let target = Target::Subgraph(entry.url.clone());
            let ghost pushed = target;
            targets.push(target);
            proof {
                lemma_push_deep_view(before, targets, pushed);
            }
        }
        k += 1;
    }
    assert(remote.take(subgraphs.len() as int) =~= remote);
    targets
}

/// What `responses` holds for the request of `id` to `target`.
fn reply<'a>(responses: &'a Vec<Response>, id: &String, target: &Target) -> (found: Option<
    &'a Option<String>,
>)
    ensures
        match found {
            Some(payload) => answer(
                responses.deep_view(),
                RequestView { id: id@, target: target@ },
            ) == Some(payload.deep_view()),
            None => answer(responses.deep_view(), RequestView { id: id@, target: target@ })
                is None,
        },
{
    let ghost all = responses.deep_view();
    let ghost request = RequestView { id: id@, target: target@ };
    let mut i: usize = 0;
    while i < responses.len()
        invariant
            i <= responses.len(),
            all == responses.deep_view(),
            request == (RequestView { id: id@, target: target@ }),
            answer(all.take(i as int), request) is None,
        decreases responses.len() - i,
    {
        proof {
            assert(all.take(i + 1).drop_last() =~= all.take(i as int));
        }
        let response = &responses[i];
        if response.request.id == *id && same_target(&response.request.target, target) {
            proof {
                lemma_answer_stays(all, request, i + 1);
            }
            return Some(&response.payload);
        }
        i += 1;
    }
    assert(all.take(responses.len() as int) =~= all);
    None
}

/// How far the responses carry along the chain of one identifier.
enum Lookup {
    Found(MetaRecord),
    Ask(Request),
    Exhausted,
}

/// Walks the chain of `id`.
fn look_up(
    id: &String,
    config: &RainConfig,
    local_only: bool,
    force: bool,
    responses: &Vec<Response>,
) -> (step: Lookup)
    ensures
        ({
            let setting = Setting {
                config: config@,
                local_only,
                force,
                responses: responses.deep_view(),
            };
            match step {
                Lookup::Found(record) => setting.found(id@) == Some(record@),
                Lookup::Ask(request) => setting.lookup(id@) matches Walk::Ask { at } && request@
                    == (RequestView { id: id@, target: setting.chain(id@)[at] }),
                Lookup::Exhausted => setting.lookup(id@) is Exhausted,
            }
        }),
{
    let ghost setting = Setting {
        config: config@,
        local_only,
        force,
        responses: responses.deep_view(),
    };
    let targets = plan(id, config, local_only, force);
    let mut k: usize = 0;
    while k < targets.len()
        invariant
            k <= targets.len(),
            targets.deep_view() == setting.chain(id@),
            setting == (Setting {
                config: config@,
                local_only,
                force,
                responses: responses.deep_view(),
            }),
            setting.lookup(id@) == walk(setting.responses, id@, setting.chain(id@), k as int),
        decreases targets.len() - k,
    {
        let target = &targets[k];
        match reply(responses, id, target) {
            None => {
                return Lookup::Ask(Request { id: id.clone(), target: copy_target(target) });
            },
            Some(Some(payload)) => {
                let record = MetaRecord {
                    id: id.clone(),
                    payload: payload.clone(),
                    source: source_of(target),
                };
                return Lookup::Found(record);
            },
            Some(None) => {
                k += 1;
            },
        }
    }
    Lookup::Exhausted
}

/// Resolves `dependency_ids` as far as `responses` allow.
///
/// The result is `Fetch` with the first request that is still unanswered,
/// `Done` when every identifier is settled, and `Unresolved` with the first
/// identifier that no source yielded when `force` is off.
pub fn resolve(
    dependency_ids: &Vec<String>,
    config: &RainConfig,
    local_only: bool,
    force: bool,
    responses: &Vec<Response>,
) -> (result: Result<Progress, ResolveError>)
    ensures
        progress_is(
            result,
            resolved(
                dependency_ids.deep_view(),
                Setting {
                    config: config@,
                    local_only,
                    force,
                    responses: responses.deep_view(),
                },
            ),
        ),
{
    let ghost ids = dependency_ids.deep_view();
    let ghost setting = Setting {
        config: config@,
        local_only,
        force,
        responses: responses.deep_view(),
    };
    let mut store = MetaStore::new();
    let mut unresolved: Vec<String> = Vec::new();
    let mut i: usize = 0;
    assert(unresolved.deep_view() =~= Seq::empty());
    while i < dependency_ids.len()
        invariant
            i <= dependency_ids.len(),
            ids == dependency_ids.deep_view(),
            setting == (Setting {
                config: config@,
                local_only,
                force,
                responses: responses.deep_view(),
            }),
            resolved(ids.take(i as int), setting) == Ok::<ProgressView, ResolveErrorView>(
                ProgressView::Done(
                    ResolutionView { store: store@, unresolved: unresolved.deep_view() },
                ),
            ),
        decreases dependency_ids.len() - i,
    {
        let id = &dependency_ids[i];
        proof {
            assert(ids.take(i + 1).drop_last() =~= ids.take(i as int));
        }
        match look_up(id, config, local_only, force, responses) {
            Lookup::Ask(request) => {
                proof {
                    lemma_resolved_stays(ids, setting, i + 1);
                }
                return Ok(Progress::Fetch(request));
            },
            Lookup::Found(record) => {
                store.insert(id.clone(), record);
            },
            Lookup::Exhausted => {
                if force {
                    let ghost before = unresolved;
                    let copy = id.clone();
                    let ghost pushed = copy;
                    unresolved.push(copy);
                    proof {
                        lemma_push_deep_view(before, unresolved, pushed);
                    }
                } else {
                    proof {
                        lemma_resolved_stays(ids, setting, i + 1);
                    }
                    return Err(ResolveError::Unresolved(id.clone()));
                }
            },
        }
        i += 1;
    }
    assert(ids.take(dependency_ids.len() as int) =~= ids);
    Ok(Progress::Done(Resolution { store, unresolved }))
}

/// The requests that can be made side by side: the next request of every
/// identifier whose chain needs an answer, in the order of the identifiers
/// and each once.
pub open spec fn outstanding(ids: Seq<Seq<char>>, setting: Setting) -> Seq<RequestView>
    decreases ids.len(),
{
    if ids.len() == 0 {
        Seq::empty()
    } else {
        let front = outstanding(ids.drop_last(), setting);
        let id = ids.last();
        match setting.lookup(id) {
            Walk::Ask { at } => {
                let request = RequestView { id, target: setting.chain(id)[at] };
                if front.contains(request) {
                    front
                } else {
                    front.push(request)
                }
            },
            _ => front,
        }
    }
}

/// The requests that `responses` leave open, one for each identifier that
/// needs one.
///
/// Requests for different identifiers do not depend on each other and may
/// be made side by side. The requests of one identifier follow each other:
/// the next is named only when the one before it is answered.
pub fn pending(
    dependency_ids: &Vec<String>,
    config: &RainConfig,
    local_only: bool,
    force: bool,
    responses: &Vec<Response>,
) -> (requests: Vec<Request>)
    ensures
        requests.deep_view() == outstanding(
            dependency_ids.deep_view(),
            Setting { config: config@, local_only, force, responses: responses.deep_view() },
        ),
{
    let ghost ids = dependency_ids.deep_view();
    let ghost setting = Setting {
        config: config@,
        local_only,
        force,
        responses: responses.deep_view(),
    };
    let mut requests: Vec<Request> = Vec::new();
    let mut i: usize = 0;
    while i < dependency_ids.len()
        invariant
            i <= dependency_ids.len(),
            ids == dependency_ids.deep_view(),
            setting == (Setting {
                config: config@,
                local_only,
                force,
                responses: responses.deep_view(),
            }),
            requests.deep_view() == outstanding(ids.take(i as int), setting),
        decreases dependency_ids.len() - i,
    {
        let id = &dependency_ids[i];
        proof {
            assert(ids.take(i + 1).drop_last() =~= ids.take(i as int));
        }
        match look_up(id, config, local_only, force, responses) {
            Lookup::Ask(request) => {
                if !listed(&requests, &request) {
                    let ghost before = requests;
                    let ghost pushed = request;
                    requests.push(request);
                    proof {
                        lemma_push_deep_view(before, requests, pushed);
                    }
                }
            },
            _ => {},
        }
        i += 1;
    }
    assert(ids.take(dependency_ids.len() as int) =~= ids);
    requests
}

/// Whether `request` is among `requests`.
fn listed(requests: &Vec<Request>, request: &Request) -> (found: bool)
    ensures
        found == requests.deep_view().contains(request@),
{
    let ghost all = requests.deep_view();
    let mut i: usize = 0;
    while i < requests.len()
        invariant
            i <= requests.len(),
            all == requests.deep_view(),
            forall|j: int| 0 <= j < i ==> all[j] != request@,
        decreases requests.len() - i,
    {
        if requests[i].id == request.id && same_target(&requests[i].target, &request.target) {
            assert(all[i as int] == request@);
            return true;
        }
        i += 1;
    }
    false
}

/// Once a resolution has stopped, more identifiers do not move it.
proof fn lemma_resolved_stays(ids: Seq<Seq<char>>, setting: Setting, n: int)
    requires
        0 <= n <= ids.len(),
        !(resolved(ids.take(n), setting) matches Ok(ProgressView::Done(_))),
    ensures
        resolved(ids, setting) == resolved(ids.take(n), setting),
    decreases ids.len() - n,
{
    if n < ids.len() {
        assert(ids.take(n + 1).drop_last() =~= ids.take(n));
        lemma_resolved_stays(ids, setting, n + 1);
    } else {
        assert(ids.take(n) =~= ids);
    }
}

/// What a finished resolution holds. The store has a record for exactly the
/// identifiers that a source yielded, each with the record of the first
/// source of its chain that did; the unresolved list names exactly the
/// identifiers whose chain is exhausted, and is empty unless force mode is
/// on; and no request is left unanswered.
pub proof fn lemma_done(ids: Seq<Seq<char>>, setting: Setting, done: ResolutionView)
    requires
        resolved(ids, setting) == Ok::<ProgressView, ResolveErrorView>(ProgressView::Done(done)),
    ensures
        forall|id: Seq<char>|
            #![trigger done.store.contains_key(id)]
            (done.store.contains_key(id) <==> ids.contains(id) && setting.found(id) is Some) && (
            done.store.contains_key(id) ==> done.store[id] == setting.found(id)->0),
        forall|id: Seq<char>|
            #![trigger done.unresolved.contains(id)]
            done.unresolved.contains(id) <==> ids.contains(id) && setting.lookup(id)
                is Exhausted,
        forall|i: int| 0 <= i < ids.len() ==> !(setting.lookup(#[trigger] ids[i]) is Ask),
        !setting.force ==> done.unresolved.len() == 0,
    decreases ids.len(),
{
    if ids.len() > 0 {
        let front = ids.drop_last();
        let last = ids.last();
        let so_far = resolved(front, setting)->Ok_0->Done_0;
        lemma_done(front, setting, so_far);
        assert forall|id: Seq<char>| #![trigger done.store.contains_key(id)]
            (done.store.contains_key(id) <==> ids.contains(id) && setting.found(id) is Some) && (
            done.store.contains_key(id) ==> done.store[id] == setting.found(id)->0) by {
            lemma_contains_last(ids, id);
        }
        assert forall|id: Seq<char>| #![trigger done.unresolved.contains(id)]
            done.unresolved.contains(id) <==> ids.contains(id) && setting.lookup(id)
                is Exhausted by {
            lemma_contains_last(ids, id);
            if setting.lookup(last) is Exhausted {
                lemma_contains_last(done.unresolved, id);
                assert(done.unresolved.drop_last() =~= so_far.unresolved);
            }
        }
        assert forall|i: int| 0 <= i < ids.len() implies !(setting.lookup(#[trigger] ids[i])
            is Ask) by {
            if i < ids.len() - 1 {
                assert(front[i] == ids[i]);
            }
        }
    }
}

/// The store only grows while identifiers are resolved, and a record that is
/// written stays as it is: what the resolution of the first `n` identifiers
/// holds, the resolution of all of them holds too.
pub proof fn lemma_store_grows(
    ids: Seq<Seq<char>>,
    setting: Setting,
    n: int,
    part: ResolutionView,
    whole: ResolutionView,
)
    requires
        0 <= n <= ids.len(),
        resolved(ids.take(n), setting) == Ok::<ProgressView, ResolveErrorView>(
            ProgressView::Done(part),
        ),
        resolved(ids, setting) == Ok::<ProgressView, ResolveErrorView>(ProgressView::Done(whole)),
    ensures
        forall|id: Seq<char>| #[trigger]
            part.store.contains_key(id) ==> whole.store.contains_key(id) && whole.store[id]
                == part.store[id],
{
    lemma_done(ids.take(n), setting, part);
    lemma_done(ids, setting, whole);
}

/// Without dependencies there is nothing to ask for and nothing to store,
/// whatever the configuration holds.
pub proof fn lemma_no_dependencies(setting: Setting)
    ensures
        resolved(Seq::empty(), setting) == Ok::<ProgressView, ResolveErrorView>(
            ProgressView::Done(ResolutionView { store: Map::empty(), unresolved: Seq::empty() }),
        ),
{
}

/// The local chain holds local files only.
proof fn lemma_local_chain(includes: Seq<IncludeEntryView>, id: Seq<char>, force: bool)
    ensures
        forall|k: int|
            0 <= k < local_chain(includes, id, force).len() ==> (#[trigger] local_chain(
                includes,
                id,
                force,
            )[k]) is Local,
    decreases includes.len(),
{
    if includes.len() > 0 {
        lemma_local_chain(includes.drop_last(), id, force);
    }
}

/// The endpoint chain holds endpoints only.
proof fn lemma_remote_chain(subgraphs: Seq<SubgraphEntryView>, force: bool)
    ensures
        forall|k: int|
            0 <= k < remote_chain(subgraphs, force).len() ==> (#[trigger] remote_chain(
                subgraphs,
                force,
            )[k]) is Subgraph,
    decreases subgraphs.len(),
{
    if subgraphs.len() > 0 {
        lemma_remote_chain(subgraphs.drop_last(), force);
    }
}

/// In a priority chain every local file stands before every endpoint.
pub proof fn lemma_chain_order(
    config: RainConfigView,
    id: Seq<char>,
    local_only: bool,
    force: bool,
    k: int,
    l: int,
)
    requires
        0 <= k < chain(config, id, local_only, force).len(),
        0 <= l < chain(config, id, local_only, force).len(),
        chain(config, id, local_only, force)[k] is Local,
        chain(config, id, local_only, force)[l] is Subgraph,
    ensures
        k < l,
{
    let local = local_chain(config.includes, id, force);
    let remote = remote_chain(config.subgraphs, force);
    lemma_local_chain(config.includes, id, force);
    lemma_remote_chain(config.subgraphs, force);
    if k >= local.len() {
        assert(chain(config, id, local_only, force)[k] == remote[k - local.len()]);
    }
    if l < local.len() {
        assert(chain(config, id, local_only, force)[l] == local[l]);
    }
}

/// The first source that yields a payload wins: the record of an identifier
/// in the finished store was yielded by a source of its chain, and every
/// source before that one answered with nothing.
pub proof fn lemma_first_wins(
    ids: Seq<Seq<char>>,
    setting: Setting,
    done: ResolutionView,
    id: Seq<char>,
)
    requires
        resolved(ids, setting) == Ok::<ProgressView, ResolveErrorView>(ProgressView::Done(done)),
        done.store.contains_key(id),
    ensures
        exists|at: int|
            0 <= at < setting.chain(id).len() && answer(
                setting.responses,
                RequestView { id, target: #[trigger] setting.chain(id)[at] },
            ) == Some(Some(done.store[id].payload)) && done.store[id] == record_of(
                id,
                setting.chain(id)[at],
                done.store[id].payload,
            ) && forall|k: int|
                0 <= k < at ==> answer(
                    setting.responses,
                    RequestView { id, target: #[trigger] setting.chain(id)[k] },
                ) == Some(None::<Seq<char>>),
{
    lemma_done(ids, setting, done);
    lemma_walk(setting.responses, id, setting.chain(id), 0);
}

/// Local data takes precedence: where a consulted local file of an
/// identifier yielded a payload, the record of that identifier in the
/// finished store comes from a local file, whatever the subgraphs answered.
pub proof fn lemma_local_precedence(
    ids: Seq<Seq<char>>,
    setting: Setting,
    done: ResolutionView,
    id: Seq<char>,
    k: int,
)
    requires
        resolved(ids, setting) == Ok::<ProgressView, ResolveErrorView>(ProgressView::Done(done)),
        ids.contains(id),
        0 <= k < local_chain(setting.config.includes, id, setting.force).len(),
        answer(
            setting.responses,
            RequestView {
                id,
                target: local_chain(setting.config.includes, id, setting.force)[k],
            },
        ) matches Some(Some(_)),
    ensures
        done.store.contains_key(id),
        done.store[id].source == SourceView::Local,
{
    let targets = setting.chain(id);
    lemma_done(ids, setting, done);
    lemma_walk(setting.responses, id, targets, 0);
    lemma_local_chain(setting.config.includes, id, setting.force);
    match setting.lookup(id) {
        Walk::Found { at, payload } => {
            assert(done.store.contains_key(id));
        },
        Walk::Ask { at } => {},
        Walk::Exhausted => {
            assert(answer(setting.responses, RequestView { id, target: targets[k] }) == Some(
                None::<Seq<char>>,
            ));
        },
    }
}

/// Force mode never fails a resolution.
pub proof fn lemma_force_resolves(ids: Seq<Seq<char>>, setting: Setting)
    requires
        setting.force,
    ensures
        resolved(ids, setting) is Ok,
    decreases ids.len(),
{
    if ids.len() > 0 {
        lemma_force_resolves(ids.drop_last(), setting);
    }
}

/// A finished resolution is incomplete exactly when it reports something:
/// an identifier is missing from the store if and only if it is listed as
/// unresolved.
pub proof fn lemma_incomplete_is_reported(
    ids: Seq<Seq<char>>,
    setting: Setting,
    done: ResolutionView,
)
    requires
        resolved(ids, setting) == Ok::<ProgressView, ResolveErrorView>(ProgressView::Done(done)),
    ensures
        forall|id: Seq<char>|
            #![trigger done.unresolved.contains(id)]
            done.unresolved.contains(id) <==> ids.contains(id) && !done.store.contains_key(id),
        done.unresolved.len() > 0 <==> exists|i: int|
            0 <= i < ids.len() && !done.store.contains_key(#[trigger] ids[i]),
{
    lemma_done(ids, setting, done);
    if done.unresolved.len() > 0 {
        let id = done.unresolved[0];
        assert(done.unresolved.contains(id));
    }
    if exists|i: int| 0 <= i < ids.len() && !done.store.contains_key(#[trigger] ids[i]) {
        let i = choose|i: int| 0 <= i < ids.len() && !done.store.contains_key(#[trigger] ids[i]);
        assert(done.unresolved.contains(ids[i]));
    }
}

/// Responses that hold the same answers carry equally far.
proof fn lemma_walk_same(
    a: Seq<ResponseView>,
    b: Seq<ResponseView>,
    id: Seq<char>,
    targets: Seq<TargetView>,
    from: int,
)
    requires
        forall|request: RequestView| answer(a, request) == answer(b, request),
    ensures
        walk(a, id, targets, from) == walk(b, id, targets, from),
    decreases targets.len() - from,
{
    if 0 <= from < targets.len() {
        lemma_walk_same(a, b, id, targets, from + 1);
    }
}

/// The order in which responses arrive does not matter: two collections of
/// responses that hold the same answer to every request give the same
/// resolution.
pub proof fn lemma_arrival_order(ids: Seq<Seq<char>>, a: Setting, b: Setting)
    requires
        a.config == b.config,
        a.local_only == b.local_only,
        a.force == b.force,
        forall|request: RequestView| answer(a.responses, request) == answer(b.responses, request),
    ensures
        resolved(ids, a) == resolved(ids, b),
    decreases ids.len(),
{
    if ids.len() > 0 {
        lemma_arrival_order(ids.drop_last(), a, b);
        lemma_walk_same(a.responses, b.responses, ids.last(), a.chain(ids.last()), 0);
    }
}

/// What `resolve` asks for is the first of the outstanding requests; so
/// where nothing is outstanding, `resolve` is finished or has failed.
pub proof fn lemma_fetch_is_outstanding(ids: Seq<Seq<char>>, setting: Setting, request: RequestView)
    requires
        resolved(ids, setting) == Ok::<ProgressView, ResolveErrorView>(
            ProgressView::Fetch(request),
        ),
    ensures
        outstanding(ids, setting).len() > 0,
        outstanding(ids, setting)[0] == request,
    decreases ids.len(),
{
    if ids.len() > 0 {
        let front = ids.drop_last();
        match resolved(front, setting) {
            Ok(ProgressView::Fetch(_)) => {
                lemma_fetch_is_outstanding(front, setting, request);
            },
            Ok(ProgressView::Done(so_far)) => {
                lemma_done(front, setting, so_far);
                lemma_nothing_outstanding(front, setting);
            },
            Err(_) => {},
        }
    }
}

/// Where no chain needs an answer, nothing is outstanding.
proof fn lemma_nothing_outstanding(ids: Seq<Seq<char>>, setting: Setting)
    requires
        forall|i: int| 0 <= i < ids.len() ==> !(setting.lookup(#[trigger] ids[i]) is Ask),
    ensures
        outstanding(ids, setting).len() == 0,
    decreases ids.len(),
{
    if ids.len() > 0 {
        let front = ids.drop_last();
        lemma_nothing_outstanding(front, setting);
    }
}

/// Every outstanding request is unanswered, and is the next of its
/// identifier's chain.
pub proof fn lemma_outstanding(ids: Seq<Seq<char>>, setting: Setting)
    ensures
        forall|k: int|
            0 <= k < outstanding(ids, setting).len() ==> {
                let request = #[trigger] outstanding(ids, setting)[k];
                &&& ids.contains(request.id)
                &&& answer(setting.responses, request) is None
                &&& setting.lookup(request.id) matches Walk::Ask { at } && request.target
                    == setting.chain(request.id)[at]
            },
    decreases ids.len(),
{
    if ids.len() > 0 {
        let front = ids.drop_last();
        let id = ids.last();
        lemma_outstanding(front, setting);
        lemma_walk(setting.responses, id, setting.chain(id), 0);
        assert forall|k: int| 0 <= k < outstanding(ids, setting).len() implies {
            let request = #[trigger] outstanding(ids, setting)[k];
            &&& ids.contains(request.id)
            &&& answer(setting.responses, request) is None
            &&& setting.lookup(request.id) matches Walk::Ask { at } && request.target
                == setting.chain(request.id)[at]
        } by {
            let request = outstanding(ids, setting)[k];
            if k < outstanding(front, setting).len() {
                lemma_contains_last(ids, request.id);
            }
        }
    }
}

} // verus!
