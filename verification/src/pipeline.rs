//! The whole composition: parse, select, resolve, compose.
//!
//! `compose_target` is a function of the source text, the target and the
//! responses gathered so far. It fails with the error of the first stage
//! that fails, asks for the next response that the resolution needs, or
//! hands out the composed text.

use std::path::PathBuf;
use vstd::prelude::*;
use crate::composer::{
    assembled,
    compose,
    composed,
    lemma_assembled_marks,
    ComposeError,
    ComposeErrorView,
};
use crate::config::{RainConfig, RainConfigView};
use crate::document::{lemma_parsed_wf, parse, parsed, DocumentView, ParseError};
use crate::entrypoint::{
    entrypoints,
    lemma_located,
    lemma_place,
    resolve as select,
    selection,
    within,
    EntrypointError,
    EntrypointErrorView,
};
use crate::resolver::{
    lemma_done,
    lemma_force_resolves,
    lemma_incomplete_is_reported,
    resolve,
    resolved,
    Progress,
    ProgressView,
    Request,
    RequestView,
    ResolutionView,
    ResolveError,
    ResolveErrorView,
    Response,
    ResponseView,
    Setting,
};
use crate::text::{dedup, deduplicated, lemma_dedup, lemma_push_deep_view};

verus! {

/// One composition request.
#[derive(Debug, PartialEq, Eq)]
pub struct ComposeTarget {
    /// Where the source text was read from.
    pub input: PathBuf,
    /// The requested entrypoints; none stands for all.
    pub entrypoints: Vec<String>,
    /// Whether unresolved dependencies are tolerated.
    pub force: bool,
    /// Whether only local data may be used.
    pub local_data_only: bool,
    /// The configuration, where one was given.
    pub config: Option<RainConfig>,
}

impl ComposeTarget {
    /// The configuration that the target goes by: its own, or the empty one.
    pub open spec fn config_view(&self) -> RainConfigView {
        match self.config {
            Some(config) => config@,
            None => RainConfigView::empty(),
        }
    }

    /// All that the resolution depends on besides the identifiers.
    pub open spec fn setting(&self, responses: Seq<ResponseView>) -> Setting {
        Setting {
            config: self.config_view(),
            local_only: self.local_data_only,
            force: self.force,
            responses,
        }
    }
}

/// Composed rainlang, with the identifiers that stayed unresolved, each
/// once.
#[derive(Debug, PartialEq, Eq)]
pub struct Output {
    pub rainlang: String,
    pub warnings: Vec<String>,
}

/// The model of `Output`: the same value over sequences of characters.
pub struct OutputView {
    pub rainlang: Seq<char>,
    pub warnings: Seq<Seq<char>>,
}

impl View for Output {
    type V = OutputView;

    open spec fn view(&self) -> OutputView {
        OutputView { rainlang: self.rainlang@, warnings: self.warnings.deep_view() }
    }
}

/// Where a composition stands.
#[derive(Debug, PartialEq, Eq)]
pub enum Outcome {
    /// This request has to be answered before the composition can go on.
    Fetch(Request),
    /// The composition is done.
    Composed(Output),
}

/// The model of `Outcome`: the same value over sequences of characters.
pub enum OutcomeView {
    Fetch(RequestView),
    Composed(OutputView),
}

impl View for Outcome {
    type V = OutcomeView;

    open spec fn view(&self) -> OutcomeView {
        match self {
            Outcome::Fetch(request) => OutcomeView::Fetch(request@),
            Outcome::Composed(output) => OutcomeView::Composed(output@),
        }
    }
}

/// Why a composition failed: the error of the stage that failed.
#[derive(Debug, PartialEq, Eq)]
pub enum Error {
    Parse(ParseError),
    Entrypoint(EntrypointError),
    Resolve(ResolveError),
    Compose(ComposeError),
}

/// The model of `Error`: the same value over sequences of characters.
pub enum ErrorView {
    Parse(ParseError),
    Entrypoint(EntrypointErrorView),
    Resolve(ResolveErrorView),
    Compose(ComposeErrorView),
}

impl View for Error {
    type V = ErrorView;

    open spec fn view(&self) -> ErrorView {
        match self {
            Error::Parse(error) => ErrorView::Parse(*error),
            Error::Entrypoint(error) => ErrorView::Entrypoint(error@),
            Error::Resolve(error) => ErrorView::Resolve(error@),
            Error::Compose(error) => ErrorView::Compose(error@),
        }
    }
}

/// What a finished resolution and the document compose to.
pub open spec fn finished(
    document: DocumentView,
    requested: Seq<Seq<char>>,
    resolution: ResolutionView,
    force: bool,
) -> Result<OutcomeView, ErrorView> {
    match entrypoints(requested, document) {
        Err(error) => Err(ErrorView::Entrypoint(error)),
        Ok(selected) => match composed(document, selected, resolution.store, force) {
            Err(error) => Err(ErrorView::Compose(error)),
            Ok(composition) => Ok(
                OutcomeView::Composed(
                    OutputView {
                        rainlang: composition.text,
                        warnings: dedup(resolution.unresolved + composition.warnings),
                    },
                ),
            ),
        },
    }
}

/// What `compose_target` gives. The stages run in the order parse, select,
/// resolve, compose, and the first error ends the run.
pub open spec fn outcome(
    source: Seq<char>,
    requested: Seq<Seq<char>>,
    setting: Setting,
) -> Result<OutcomeView, ErrorView> {
    match parsed(source) {
        Err(error) => Err(ErrorView::Parse(error)),
        Ok(document) => match entrypoints(requested, document) {
            Err(error) => Err(ErrorView::Entrypoint(error)),
            Ok(_) => match resolved(document.dependency_ids, setting) {
                Err(error) => Err(ErrorView::Resolve(error)),
                Ok(ProgressView::Fetch(request)) => Ok(OutcomeView::Fetch(request)),
                Ok(ProgressView::Done(resolution)) => finished(
                    document,
                    requested,
                    resolution,
                    setting.force,
                ),
            },
        },
    }
}

/// Whether a result is the one that `expected` describes.
pub open spec fn outcome_is(
    result: Result<Outcome, Error>,
    expected: Result<OutcomeView, ErrorView>,
) -> bool {
    match (result, expected) {
        (Ok(outcome), Ok(view)) => outcome@ == view,
        (Err(error), Err(view)) => error@ == view,
        _ => false,
    }
}

/// A copy of `names`.
fn copy_names(names: &Vec<String>) -> (out: Vec<String>)
    ensures
        out.deep_view() == names.deep_view(),
{
    let mut out: Vec<String> = Vec::new();
    let mut i: usize = 0;
    while i < names.len()
        invariant
            i <= names.len(),
            out.len() == i,
            forall|j: int| 0 <= j < i ==> out[j]@ == names[j]@,
        decreases names.len() - i,
    {
        out.push(names[i].clone());
        i += 1;
    }
    out
}

/// `first` followed by `second`.
fn merged(first: &Vec<String>, second: &Vec<String>) -> (out: Vec<String>)
    ensures
        out.deep_view() == first.deep_view() + second.deep_view(),
{
    let mut out = copy_names(first);
    let mut i: usize = 0;
    while i < second.len()
        invariant
            i <= second.len(),
            out.deep_view() == first.deep_view() + second.deep_view().take(i as int),
        decreases second.len() - i,
    {
        let ghost before = out;
        let copy = second[i].clone();
        let ghost pushed = copy;
        out.push(copy);
        proof {
            lemma_push_deep_view(before, out, pushed);
        }
        i += 1;
    }
    out
}

/// Composes `source` for `target` as far as `responses` allow.
pub fn compose_target(target: &ComposeTarget, source: &str, responses: &Vec<Response>) -> (result:
    Result<Outcome, Error>)
    ensures
        outcome_is(
            result,
            outcome(source@, target.entrypoints.deep_view(), target.setting(responses.deep_view())),
        ),
{
    let document = match parse(source) {
        Ok(document) => document,
        Err(error) => {
            return Err(Error::Parse(error));
        },
    };
    let selected = match select(copy_names(&target.entrypoints), &document) {
        Ok(selected) => selected,
        Err(error) => {
            return Err(Error::Entrypoint(error));
        },
    };
    let empty = RainConfig::empty();
    let config = match &target.config {
        Some(config) => config,
        None => &empty,
    };
    let resolution = match resolve(
        document.dependency_ids(),
        config,
        target.local_data_only,
        target.force,
        responses,
    ) {
        Ok(Progress::Done(resolution)) => resolution,
        Ok(Progress::Fetch(request)) => {
            return Ok(Outcome::Fetch(request));
        },
        Err(error) => {
            return Err(Error::Resolve(error));
        },
    };
    match compose(&document, selected.as_slice(), &resolution.store, target.force) {
        Err(error) => Err(Error::Compose(error)),
        Ok(composition) => {
            let all = merged(&resolution.unresolved, &composition.warnings);
            Ok(
                Outcome::Composed(
                    Output { rainlang: composition.text, warnings: deduplicated(&all) },
                ),
            )
        },
    }
}

/// With force mode off, a finished resolution serves every reference: the
/// composition that follows it cannot fail, and has no warning.
pub proof fn lemma_resolved_composes(
    document: DocumentView,
    requested: Seq<Seq<char>>,
    setting: Setting,
    resolution: ResolutionView,
)
    requires
        document.wf(),
        !setting.force,
        resolved(document.dependency_ids, setting) == Ok::<ProgressView, ResolveErrorView>(
            ProgressView::Done(resolution),
        ),
        entrypoints(requested, document) is Ok,
    ensures
        finished(document, requested, resolution, false) matches Ok(OutcomeView::Composed(output))
            && output.warnings.len() == 0,
{
    let selected = entrypoints(requested, document)->Ok_0;
    lemma_located(selection(requested, document), document);
    assert(within(selected, document)) by {
        assert forall|i: int| 0 <= i < selected.len() implies 0 <= (#[trigger] selected[i]).index
            < document.expressions.len() by {
            let name = selection(requested, document)[i];
            lemma_place(document.expressions, name);
        }
    }
    lemma_done(document.dependency_ids, setting, resolution);
    lemma_incomplete_is_reported(document.dependency_ids, setting, resolution);
    lemma_assembled_marks(document, selected, resolution.store);
    let whole = assembled(document, selected, resolution.store);
    if whole.warnings.len() > 0 {
        let id = whole.warnings[0];
        assert(document.dependency_ids.contains(id) && !resolution.store.contains_key(id));
        assert(resolution.unresolved.contains(id));
    }
}

/// Force mode never fails for want of a dependency: the only errors left
/// are those of the parser and of the entrypoint resolver.
pub proof fn lemma_force_never_fails(source: Seq<char>, requested: Seq<Seq<char>>, setting: Setting)
    requires
        setting.force,
    ensures
        !(outcome(source, requested, setting) matches Err(ErrorView::Resolve(_))),
        !(outcome(source, requested, setting) matches Err(ErrorView::Compose(_))),
{
    match parsed(source) {
        Ok(document) => {
            lemma_force_resolves(document.dependency_ids, setting);
        },
        Err(_) => {},
    }
}

/// The composing stage never fails a run: a reference can only name a
/// declared dependency, and by the time the blocks are composed every
/// declared dependency is in the store or force mode is on.
pub proof fn lemma_composing_never_fails(
    source: Seq<char>,
    requested: Seq<Seq<char>>,
    setting: Setting,
)
    ensures
        !(outcome(source, requested, setting) matches Err(ErrorView::Compose(_))),
{
    if setting.force {
        lemma_force_never_fails(source, requested, setting);
    } else {
        lemma_parsed_wf(source);
        match parsed(source) {
            Ok(document) => {
                if entrypoints(requested, document) is Ok {
                    match resolved(document.dependency_ids, setting) {
                        Ok(ProgressView::Done(resolution)) => {
                            lemma_resolved_composes(document, requested, setting, resolution);
                        },
                        _ => {},
                    }
                }
            },
            Err(_) => {},
        }
    }
}

/// In force mode an incomplete resolution always shows: where a declared
/// dependency has no record when the composition is done, the output has a
/// warning, and every dependency without a record is among the warnings.
pub proof fn lemma_incomplete_warns(
    document: DocumentView,
    requested: Seq<Seq<char>>,
    setting: Setting,
    resolution: ResolutionView,
    output: OutputView,
    id: Seq<char>,
)
    requires
        resolved(document.dependency_ids, setting) == Ok::<ProgressView, ResolveErrorView>(
            ProgressView::Done(resolution),
        ),
        finished(document, requested, resolution, setting.force) == Ok::<OutcomeView, ErrorView>(
            OutcomeView::Composed(output),
        ),
        document.dependency_ids.contains(id),
        !resolution.store.contains_key(id),
    ensures
        output.warnings.contains(id),
        output.warnings.len() > 0,
{
    lemma_incomplete_is_reported(document.dependency_ids, setting, resolution);
    assert(resolution.unresolved.contains(id));
    let selected = entrypoints(requested, document)->Ok_0;
    let composition = composed(document, selected, resolution.store, setting.force)->Ok_0;
    let all = resolution.unresolved + composition.warnings;
    let at = choose|at: int|
        0 <= at < resolution.unresolved.len() && resolution.unresolved[at] == id;
    assert(all[at] == id);
    assert(all.contains(id));
    lemma_dedup(all);
}

/// A text without dependencies needs no response: whatever the
/// configuration, the mode and the responses, it composes without warning
/// as soon as its entrypoints are found.
pub proof fn lemma_no_dependencies(
    source: Seq<char>,
    requested: Seq<Seq<char>>,
    setting: Setting,
    document: DocumentView,
)
    requires
        parsed(source) == Ok::<DocumentView, ParseError>(document),
        document.dependency_ids.len() == 0,
        entrypoints(requested, document) is Ok,
    ensures
        outcome(source, requested, setting) matches Ok(OutcomeView::Composed(output))
            && output.warnings.len() == 0,
{
    let selected = entrypoints(requested, document)->Ok_0;
    lemma_parsed_wf(source);
    lemma_located(selection(requested, document), document);
    assert(within(selected, document)) by {
        assert forall|i: int| 0 <= i < selected.len() implies 0 <= (#[trigger] selected[i]).index
            < document.expressions.len() by {
            let name = selection(requested, document)[i];
            lemma_place(document.expressions, name);
        }
    }
    crate::resolver::lemma_no_dependencies(setting);
    crate::composer::lemma_no_dependencies(
        document,
        selected,
        Map::empty(),
        setting.force,
    );
}

} // verus!
