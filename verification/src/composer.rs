//! The composer: from a document, its entrypoints and a store to rainlang.
//!
//! A dependency reference is an at sign followed by a declared dependency
//! identifier, where the identifier is the longest run of identifier
//! characters behind the sign. Composing a block replaces every reference by
//! the payload that the store holds for it, and copies the rest of the block
//! as it is. The composed blocks follow each other in the order of the
//! entrypoints, with one line feed between two.

use vstd::prelude::*;
use crate::document::{DocumentView, DotrainDocument};
use crate::entrypoint::{within, Entrypoint, EntrypointView};
use crate::store::{MetaRecordView, MetaStore};
use crate::text::{
    append,
    chars_of,
    lemma_push_deep_view,
    lemma_span_end,
    position,
    slice,
    span,
    span_end,
    string_of,
    CharClass,
};

verus! {

/// Composed rainlang, with the identifiers of the references that the store
/// could not serve, one for each marker in the text.
#[derive(Debug, PartialEq, Eq)]
pub struct Composition {
    pub text: String,
    pub warnings: Vec<String>,
}

/// The model of `Composition`: the same value over sequences of characters.
pub struct CompositionView {
    pub text: Seq<char>,
    pub warnings: Seq<Seq<char>>,
}

impl View for Composition {
    type V = CompositionView;

    open spec fn view(&self) -> CompositionView {
        CompositionView { text: self.text@, warnings: self.warnings.deep_view() }
    }
}

/// Why a composition failed.
#[derive(Debug, PartialEq, Eq)]
pub enum ComposeError {
    /// The store holds nothing for this reference, and force mode is off.
    MissingDependency(String),
}

/// The model of `ComposeError`: the same value over sequences of characters.
pub enum ComposeErrorView {
    MissingDependency(Seq<char>),
}

impl View for ComposeError {
    type V = ComposeErrorView;

    open spec fn view(&self) -> ComposeErrorView {
        match self {
            ComposeError::MissingDependency(id) => ComposeErrorView::MissingDependency(id@),
        }
    }
}

/// What stands in place of a reference that the store cannot serve.
pub open spec fn marker(id: Seq<char>) -> Seq<char> {
    seq!['<', 'u', 'n', 'r', 'e', 's', 'o', 'l', 'v', 'e', 'd', ':'] + id + seq!['>']
}

/// What stands between two composed blocks.
pub open spec fn delimiter() -> Seq<char> {
    seq!['\n']
}

/// The end of the reference that starts at `at`, where one starts there.
pub open spec fn reference_at(body: Seq<char>, at: int, dependencies: Seq<Seq<char>>) -> Option<
    int,
> {
    if 0 <= at < body.len() && body[at] == '@' {
        let end = span_end(body, at + 1, CharClass::Ident);
        if end > at + 1 && dependencies.contains(body.subrange(at + 1, end)) {
            Some(end)
        } else {
            None
        }
    } else {
        None
    }
}

/// A composed piece of text, with the identifiers of its markers in the
/// order of the text.
pub struct Rendered {
    pub text: Seq<char>,
    pub missing: Seq<Seq<char>>,
}

/// `body` from `from` on, composed.
pub open spec fn render(
    body: Seq<char>,
    from: int,
    dependencies: Seq<Seq<char>>,
    store: Map<Seq<char>, MetaRecordView>,
) -> Rendered
    decreases body.len() - from,
{
    if from < 0 || from >= body.len() {
        Rendered { text: Seq::empty(), missing: Seq::empty() }
    } else {
        match reference_at(body, from, dependencies) {
            Some(end) => if from < end <= body.len() {
                let id = body.subrange(from + 1, end);
                let rest = render(body, end, dependencies, store);
                if store.contains_key(id) {
                    Rendered { text: store[id].payload + rest.text, missing: rest.missing }
                } else {
                    Rendered { text: marker(id) + rest.text, missing: seq![id] + rest.missing }
                }
            } else {
                Rendered { text: Seq::empty(), missing: Seq::empty() }
            },
            None => {
                let rest = render(body, from + 1, dependencies, store);
                Rendered { text: seq![body[from]] + rest.text, missing: rest.missing }
            },
        }
    }
}

/// The blocks of the entrypoints, composed and put together.
pub open spec fn assembled(
    document: DocumentView,
    entrypoints: Seq<EntrypointView>,
    store: Map<Seq<char>, MetaRecordView>,
) -> CompositionView
    decreases entrypoints.len(),
{
    if entrypoints.len() == 0 {
        CompositionView { text: Seq::empty(), warnings: Seq::empty() }
    } else {
        let front = assembled(document, entrypoints.drop_last(), store);
        let block = render(
            document.expressions[entrypoints.last().index].body,
            0,
            document.dependency_ids,
            store,
        );
        CompositionView {
            text: if entrypoints.len() == 1 {
                block.text
            } else {
                front.text + delimiter() + block.text
            },
            warnings: front.warnings + block.missing,
        }
    }
}

/// What `compose` gives. With `force` off, a reference that the store
/// cannot serve fails the composition, and the first such reference is the
/// one reported.
pub open spec fn composed(
    document: DocumentView,
    entrypoints: Seq<EntrypointView>,
    store: Map<Seq<char>, MetaRecordView>,
    force: bool,
) -> Result<CompositionView, ComposeErrorView> {
    let whole = assembled(document, entrypoints, store);
    if !force && whole.warnings.len() > 0 {
        Err(ComposeErrorView::MissingDependency(whole.warnings[0]))
    } else {
        Ok(whole)
    }
}

/// Whether a result is the one that `expected` describes.
pub open spec fn composition_is(
    result: Result<Composition, ComposeError>,
    expected: Result<CompositionView, ComposeErrorView>,
) -> bool {
    match (result, expected) {
        (Ok(composition), Ok(view)) => composition@ == view,
        (Err(error), Err(view)) => error@ == view,
        _ => false,
    }
}

/// Whether `needle` stands somewhere in `text`.
pub open spec fn occurs(needle: Seq<char>, text: Seq<char>) -> bool {
    exists|at: int|
        0 <= at && at + needle.len() <= text.len() && #[trigger] text.subrange(
            at,
            at + needle.len(),
        ) == needle
}

/// What stands in a text stands in the text with something put before it.
proof fn lemma_occurs_behind(needle: Seq<char>, head: Seq<char>, tail: Seq<char>)
    requires
        occurs(needle, tail),
    ensures
        occurs(needle, head + tail),
{
    let at = choose|at: int|
        0 <= at && at + needle.len() <= tail.len() && #[trigger] tail.subrange(
            at,
            at + needle.len(),
        ) == needle;
    let moved = head.len() + at;
    assert((head + tail).subrange(moved, moved + needle.len()) =~= tail.subrange(
        at,
        at + needle.len(),
    ));
}

/// What stands in a text stands in the text with something put behind it.
proof fn lemma_occurs_before(needle: Seq<char>, head: Seq<char>, tail: Seq<char>)
    requires
        occurs(needle, head),
    ensures
        occurs(needle, head + tail),
{
    let at = choose|at: int|
        0 <= at && at + needle.len() <= head.len() && #[trigger] head.subrange(
            at,
            at + needle.len(),
        ) == needle;
    assert((head + tail).subrange(at, at + needle.len()) =~= head.subrange(
        at,
        at + needle.len(),
    ));
}

/// A composed text holds the marker of every identifier that it reports
/// missing, and none of these is in the store.
pub proof fn lemma_render_marks(
    body: Seq<char>,
    from: int,
    dependencies: Seq<Seq<char>>,
    store: Map<Seq<char>, MetaRecordView>,
)
    requires
        0 <= from <= body.len(),
    ensures
        forall|k: int|
            0 <= k < render(body, from, dependencies, store).missing.len() ==> {
                let id = #[trigger] render(body, from, dependencies, store).missing[k];
                &&& occurs(marker(id), render(body, from, dependencies, store).text)
                &&& !store.contains_key(id)
                &&& dependencies.contains(id)
            },
    decreases body.len() - from,
{
    let whole = render(body, from, dependencies, store);
    if from < body.len() {
        match reference_at(body, from, dependencies) {
            Some(end) => {
                lemma_span_end(body, from + 1, CharClass::Ident);
                let id = body.subrange(from + 1, end);
                let rest = render(body, end, dependencies, store);
                lemma_render_marks(body, end, dependencies, store);
                if store.contains_key(id) {
                    assert forall|k: int| 0 <= k < whole.missing.len() implies occurs(
                        marker(#[trigger] whole.missing[k]),
                        whole.text,
                    ) by {
                        lemma_occurs_behind(marker(rest.missing[k]), store[id].payload, rest.text);
                    }
                } else {
                    assert forall|k: int| 0 <= k < whole.missing.len() implies {
                        let found = #[trigger] whole.missing[k];
                        &&& occurs(marker(found), whole.text)
                        &&& !store.contains_key(found)
                        &&& dependencies.contains(found)
                    } by {
                        if k == 0 {
                            let width = marker(id).len() as int;
                            assert(whole.text.subrange(0, 0 + width) =~= marker(id));
                        } else {
                            lemma_occurs_behind(marker(rest.missing[k - 1]), marker(id), rest.text);
                        }
                    }
                }
            },
            None => {
                let rest = render(body, from + 1, dependencies, store);
                lemma_render_marks(body, from + 1, dependencies, store);
                assert forall|k: int| 0 <= k < whole.missing.len() implies occurs(
                    marker(#[trigger] whole.missing[k]),
                    whole.text,
                ) by {
                    lemma_occurs_behind(marker(rest.missing[k]), seq![body[from]], rest.text);
                }
            },
        }
    }
}

/// A composition holds the marker of every identifier that it warns of, and
/// none of these is in the store.
pub proof fn lemma_assembled_marks(
    document: DocumentView,
    entrypoints: Seq<EntrypointView>,
    store: Map<Seq<char>, MetaRecordView>,
)
    requires
        within(entrypoints, document),
    ensures
        forall|k: int|
            0 <= k < assembled(document, entrypoints, store).warnings.len() ==> {
                let id = #[trigger] assembled(document, entrypoints, store).warnings[k];
                &&& occurs(marker(id), assembled(document, entrypoints, store).text)
                &&& !store.contains_key(id)
                &&& document.dependency_ids.contains(id)
            },
    decreases entrypoints.len(),
{
    if entrypoints.len() > 0 {
        let whole = assembled(document, entrypoints, store);
        let rest = entrypoints.drop_last();
        assert(within(rest, document));
        let front = assembled(document, rest, store);
        lemma_assembled_marks(document, rest, store);
        let body = document.expressions[entrypoints.last().index].body;
        let block = render(body, 0, document.dependency_ids, store);
        lemma_render_marks(body, 0, document.dependency_ids, store);
        assert forall|k: int| 0 <= k < whole.warnings.len() implies {
            let id = #[trigger] whole.warnings[k];
            &&& occurs(marker(id), whole.text)
            &&& !store.contains_key(id)
            &&& document.dependency_ids.contains(id)
        } by {
            if k < front.warnings.len() {
                if entrypoints.len() > 1 {
                    lemma_occurs_before(marker(front.warnings[k]), front.text, delimiter());
                    lemma_occurs_before(
                        marker(front.warnings[k]),
                        front.text + delimiter(),
                        block.text,
                    );
                }
            } else {
                let m = k - front.warnings.len();
                if entrypoints.len() > 1 {
                    lemma_occurs_behind(
                        marker(block.missing[m]),
                        front.text + delimiter(),
                        block.text,
                    );
                }
            }
        }
    }
}

/// Without declared dependencies a block is composed to itself, and nothing
/// is missing.
pub proof fn lemma_render_plain(body: Seq<char>, from: int, store: Map<Seq<char>, MetaRecordView>)
    requires
        0 <= from <= body.len(),
    ensures
        render(body, from, Seq::empty(), store).text == body.subrange(from, body.len() as int),
        render(body, from, Seq::empty(), store).missing == Seq::<Seq<char>>::empty(),
    decreases body.len() - from,
{
    if from < body.len() {
        lemma_render_plain(body, from + 1, store);
    }
}

/// A document without dependencies composes whatever the store holds and
/// whether or not force mode is on, and without any warning.
pub proof fn lemma_no_dependencies(
    document: DocumentView,
    entrypoints: Seq<EntrypointView>,
    store: Map<Seq<char>, MetaRecordView>,
    force: bool,
)
    requires
        within(entrypoints, document),
        document.dependency_ids.len() == 0,
    ensures
        composed(document, entrypoints, store, force) is Ok,
        assembled(document, entrypoints, store).warnings.len() == 0,
    decreases entrypoints.len(),
{
    if entrypoints.len() > 0 {
        let rest = entrypoints.drop_last();
        assert(within(rest, document));
        lemma_no_dependencies(document, rest, store, force);
        assert(document.dependency_ids =~= Seq::empty());
        lemma_render_plain(document.expressions[entrypoints.last().index].body, 0, store);
    }
}

/// Force mode never fails a composition, and every reference that the store
/// cannot serve shows as a marker in the text and as a warning.
pub proof fn lemma_force_composes(
    document: DocumentView,
    entrypoints: Seq<EntrypointView>,
    store: Map<Seq<char>, MetaRecordView>,
)
    requires
        within(entrypoints, document),
    ensures
        composed(document, entrypoints, store, true) == Ok::<CompositionView, ComposeErrorView>(
            assembled(document, entrypoints, store),
        ),
        forall|k: int|
            0 <= k < assembled(document, entrypoints, store).warnings.len() ==> occurs(
                marker(#[trigger] assembled(document, entrypoints, store).warnings[k]),
                assembled(document, entrypoints, store).text,
            ),
{
    lemma_assembled_marks(document, entrypoints, store);
}

/// Composition is a function of its arguments: two results for the same
/// document, entrypoints, store and mode are the same text and warnings, or
/// the same error.
pub proof fn lemma_deterministic(
    first: Result<Composition, ComposeError>,
    second: Result<Composition, ComposeError>,
    document: DocumentView,
    entrypoints: Seq<EntrypointView>,
    store: Map<Seq<char>, MetaRecordView>,
    force: bool,
)
    requires
        composition_is(first, composed(document, entrypoints, store, force)),
        composition_is(second, composed(document, entrypoints, store, force)),
    ensures
        match (first, second) {
            (Ok(a), Ok(b)) => a.text@ == b.text@ && a.warnings.deep_view()
                == b.warnings.deep_view(),
            (Err(a), Err(b)) => a@ == b@,
            _ => false,
        },
{
}

/// The marker of `id`.
fn marker_of(id: &Vec<char>) -> (out: Vec<char>)
    ensures
        out@ == marker(id@),
{
    let mut out: Vec<char> = Vec::new();
    out.push('<');
    out.push('u');
    out.push('n');
    out.push('r');
    out.push('e');
    out.push('s');
    out.push('o');
    out.push('l');
    out.push('v');
    out.push('e');
    out.push('d');
    out.push(':');
    append(&mut out, id);
    out.push('>');
    out
}

/// Composes `body` onto the end of `out`, and lists what is missing at the
/// end of `missing`.
fn render_onto(
    body: &Vec<char>,
    dependencies: &Vec<String>,
    store: &MetaStore,
    out: &mut Vec<char>,
    missing: &mut Vec<String>,
)
    ensures
        final(out)@ == old(out)@ + render(body@, 0, dependencies.deep_view(), store@).text,
        final(missing).deep_view() == old(missing).deep_view() + render(
            body@,
            0,
            dependencies.deep_view(),
            store@,
        ).missing,
{
    let ghost declared = dependencies.deep_view();
    let ghost whole = render(body@, 0, declared, store@);
    let mut i: usize = 0;
    while i < body.len()
        invariant
            i <= body.len(),
            declared == dependencies.deep_view(),
            whole == render(body@, 0, declared, store@),
            old(out)@ + whole.text == out@ + render(body@, i as int, declared, store@).text,
            old(missing).deep_view() + whole.missing == missing.deep_view() + render(
                body@,
                i as int,
                declared,
                store@,
            ).missing,
        decreases body.len() - i,
    {
        let mut end: usize = i;
        let mut found: Option<String> = None;
        if body[i] == '@' {
            end = span(body, i + 1, CharClass::Ident);
            if end > i + 1 {
                let id = string_of(&slice(body, i + 1, end));
                let at = position(dependencies, &id);
                proof {
                    if at is Some {
                        assert(declared[at->0 as int] == id@);
                    }
                }
                if at.is_some() {
                    found = Some(id);
                }
            }
        }
        match found {
            Some(id) => {
                match store.get(id.as_str()) {
                    Some(record) => {
                        let payload = chars_of(record.payload.as_str());
                        append(out, &payload);
                    },
                    None => {
                        let mark = marker_of(&chars_of(id.as_str()));
                        let ghost held = *missing;
                        append(out, &mark);
                        let ghost pushed = id;
                        missing.push(id);
                        proof {
                            lemma_push_deep_view(held, *missing, pushed);
                        }
                    },
                }
                i = end;
            },
            None => {
                out.push(body[i]);
                i += 1;
            },
        }
    }
}

/// Composes the blocks of `entrypoints`, in their order.
///
/// With `force` off the result is `MissingDependency` as soon as a
/// reference has no record in `store`. With `force` on there is always a
/// text, in which such a reference shows as a marker.
pub fn compose(
    document: &DotrainDocument,
    entrypoints: &[Entrypoint],
    store: &MetaStore,
    force: bool,
) -> (result: Result<Composition, ComposeError>)
    requires
        within(entrypoints.deep_view(), document@),
    ensures
        composition_is(result, composed(document@, entrypoints.deep_view(), store@, force)),
{
    let ghost all = entrypoints.deep_view();
    let blocks = document.expressions();
    let dependencies = document.dependency_ids();
    let mut text: Vec<char> = Vec::new();
    let mut warnings: Vec<String> = Vec::new();
    let mut i: usize = 0;
    assert(warnings.deep_view() =~= Seq::empty());
    while i < entrypoints.len()
        invariant
            i <= entrypoints.len(),
            all == entrypoints.deep_view(),
            within(all, document@),
            blocks.deep_view() == document@.expressions,
            dependencies.deep_view() == document@.dependency_ids,
            assembled(document@, all.take(i as int), store@) == (CompositionView {
                text: text@,
                warnings: warnings.deep_view(),
            }),
        decreases entrypoints.len() - i,
    {
        proof {
            assert(all.take(i + 1).drop_last() =~= all.take(i as int));
            assert(all.take(i + 1).last() == entrypoints[i as int]@);
        }
        let index = entrypoints[i].index;
        let body = chars_of(blocks[index].body.as_str());
        if i > 0 {
            text.push('\n');
        }
        render_onto(&body, dependencies, store, &mut text, &mut warnings);
        proof {
            let block = render(body@, 0, document@.dependency_ids, store@);
            let front = assembled(document@, all.take(i as int), store@);
            if i > 0 {
                assert(text@ =~= front.text + delimiter() + block.text);
            }
        }
        i += 1;
    }
    assert(all.take(entrypoints.len() as int) =~= all);
    if !force && warnings.len() > 0 {
        return Err(ComposeError::MissingDependency(warnings[0].clone()));
    }
    Ok(Composition { text: string_of(&text), warnings })
}

} // verus!
