//! The entrypoint resolver: from requested names to expression blocks.
//!
//! A request names blocks. An empty request stands for every named block of
//! the document, in the order of the text. A document without any named
//! block has one implicit entrypoint, `main`, which is its first block.

use vstd::prelude::*;
use crate::document::{distinct_names, BlockView, DocumentView, DotrainDocument, ExpressionBlock};
use crate::text::{
    dedup,
    deduplicated,
    lemma_dedup_fixed,
    lemma_push_deep_view,
    string_of,
};

verus! {

/// A requested name and the block that it selects.
#[derive(Debug, PartialEq, Eq)]
pub struct Entrypoint {
    pub name: String,
    pub index: usize,
}

/// The model of `Entrypoint`: the same value over sequences of characters.
pub struct EntrypointView {
    pub name: Seq<char>,
    pub index: int,
}

impl View for Entrypoint {
    type V = EntrypointView;

    open spec fn view(&self) -> EntrypointView {
        EntrypointView { name: self.name@, index: self.index as int }
    }
}

impl DeepView for Entrypoint {
    type V = EntrypointView;

    open spec fn deep_view(&self) -> EntrypointView {
        self@
    }
}

/// Why a request cannot be met.
#[derive(Debug, PartialEq, Eq)]
pub enum EntrypointError {
    /// No block carries this name.
    NotFound(String),
}

/// The model of `EntrypointError`: the same value over sequences of characters.
pub enum EntrypointErrorView {
    NotFound(Seq<char>),
}

impl View for EntrypointError {
    type V = EntrypointErrorView;

    open spec fn view(&self) -> EntrypointErrorView {
        match self {
            EntrypointError::NotFound(name) => EntrypointErrorView::NotFound(name@),
        }
    }
}

/// The name of the implicit entrypoint.
pub open spec fn implicit_name() -> Seq<char> {
    seq!['m', 'a', 'i', 'n']
}

/// The names of the named blocks, in the order of the text.
pub open spec fn names(blocks: Seq<BlockView>) -> Seq<Seq<char>>
    decreases blocks.len(),
{
    if blocks.len() == 0 {
        Seq::empty()
    } else {
        let front = names(blocks.drop_last());
        match blocks.last().name {
            Some(name) => front.push(name),
            None => front,
        }
    }
}

/// The first block that carries `name`.
pub open spec fn place(blocks: Seq<BlockView>, name: Seq<char>) -> Option<int>
    decreases blocks.len(),
{
    if blocks.len() == 0 {
        None
    } else {
        match place(blocks.drop_last(), name) {
            Some(index) => Some(index),
            None => if blocks.last().name == Some(name) {
                Some(blocks.len() - 1)
            } else {
                None
            },
        }
    }
}

/// The block that `name` selects: the block of that name, or the first block
/// where no block has a name and `name` is the implicit one.
pub open spec fn locate(document: DocumentView, name: Seq<char>) -> Option<int> {
    match place(document.expressions, name) {
        Some(index) => Some(index),
        None => if names(document.expressions).len() == 0 && name == implicit_name() {
            Some(0)
        } else {
            None
        },
    }
}

/// The names that a request stands for: itself without repetitions, or,
/// where it is empty, every named block, or the implicit name where there is
/// none.
pub open spec fn selection(requested: Seq<Seq<char>>, document: DocumentView) -> Seq<Seq<char>> {
    if requested.len() > 0 {
        dedup(requested)
    } else if names(document.expressions).len() > 0 {
        names(document.expressions)
    } else {
        seq![implicit_name()]
    }
}

/// The entrypoints of the names `wanted`, or the first of them that selects
/// no block.
pub open spec fn located(wanted: Seq<Seq<char>>, document: DocumentView) -> Result<
    Seq<EntrypointView>,
    EntrypointErrorView,
>
    decreases wanted.len(),
{
    if wanted.len() == 0 {
        Ok(Seq::empty())
    } else {
        match located(wanted.drop_last(), document) {
            Err(error) => Err(error),
            Ok(front) => match locate(document, wanted.last()) {
                Some(index) => Ok(front.push(EntrypointView { name: wanted.last(), index })),
                None => Err(EntrypointErrorView::NotFound(wanted.last())),
            },
        }
    }
}

/// The entrypoints that a request selects in a document.
pub open spec fn entrypoints(requested: Seq<Seq<char>>, document: DocumentView) -> Result<
    Seq<EntrypointView>,
    EntrypointErrorView,
> {
    located(selection(requested, document), document)
}

/// Whether a result is the one that `expected` describes.
pub open spec fn entrypoints_are(
    result: Result<Vec<Entrypoint>, EntrypointError>,
    expected: Result<Seq<EntrypointView>, EntrypointErrorView>,
) -> bool {
    match (result, expected) {
        (Ok(found), Ok(view)) => found.deep_view() == view,
        (Err(error), Err(view)) => error@ == view,
        _ => false,
    }
}

/// Every entrypoint selects a block of the document.
pub open spec fn within(found: Seq<EntrypointView>, document: DocumentView) -> bool {
    forall|i: int|
        0 <= i < found.len() ==> 0 <= (#[trigger] found[i]).index < document.expressions.len()
}

/// A placed name stands at its place, and nowhere before it.
pub proof fn lemma_place(blocks: Seq<BlockView>, name: Seq<char>)
    ensures
        match place(blocks, name) {
            Some(index) => 0 <= index < blocks.len() && blocks[index].name == Some(name)
                && forall|i: int| 0 <= i < index ==> (#[trigger] blocks[i]).name != Some(name),
            None => forall|i: int| 0 <= i < blocks.len() ==> (#[trigger] blocks[i]).name != Some(
                name,
            ),
        },
    decreases blocks.len(),
{
    if blocks.len() > 0 {
        let front = blocks.drop_last();
        lemma_place(front, name);
        match place(front, name) {
            Some(index) => {
                assert forall|i: int| 0 <= i < index implies (#[trigger] blocks[i]).name != Some(
                    name,
                ) by {
                    assert(front[i] == blocks[i]);
                }
            },
            None => {
                assert forall|i: int| 0 <= i < blocks.len() - 1 implies (#[trigger] blocks[i]).name
                    != Some(name) by {
                    assert(front[i] == blocks[i]);
                }
            },
        }
    }
}

/// What `located` gives: where every name selects a block, one entrypoint
/// for each name, in the order of the names; otherwise the first name that
/// selects none.
pub proof fn lemma_located(wanted: Seq<Seq<char>>, document: DocumentView)
    ensures
        match located(wanted, document) {
            Ok(found) => found.len() == wanted.len() && forall|i: int|
                #![trigger wanted[i]]
                #![trigger found[i]]
                0 <= i < wanted.len() ==> locate(document, wanted[i]) is Some && found[i] == (
                EntrypointView { name: wanted[i], index: locate(document, wanted[i])->0 }),
            Err(EntrypointErrorView::NotFound(name)) => exists|k: int|
                0 <= k < wanted.len() && #[trigger] wanted[k] == name && locate(document, name)
                    is None && forall|i: int|
                    0 <= i < k ==> locate(document, #[trigger] wanted[i]) is Some,
        },
    decreases wanted.len(),
{
    if wanted.len() > 0 {
        let front = wanted.drop_last();
        lemma_located(front, document);
        match located(front, document) {
            Ok(found) => {
                assert forall|i: int| 0 <= i < front.len() implies front[i] == wanted[i] by {}
                if locate(document, wanted.last()) is None {
                    let k = wanted.len() - 1;
                    assert(wanted[k] == wanted.last());
                }
            },
            Err(EntrypointErrorView::NotFound(name)) => {
                let k = choose|k: int|
                    0 <= k < front.len() && #[trigger] front[k] == name && locate(document, name)
                        is None && forall|i: int|
                        0 <= i < k ==> locate(document, #[trigger] front[i]) is Some;
                assert forall|i: int| 0 <= i < k implies locate(document, #[trigger] wanted[i])
                    is Some by {
                    assert(front[i] == wanted[i]);
                }
            },
        }
    }
}

/// The names of distinctly named blocks are distinct, each is placed at a
/// block that carries it, and the places go up with the names.
pub proof fn lemma_names(blocks: Seq<BlockView>)
    requires
        distinct_names(blocks),
    ensures
        names(blocks).no_duplicates(),
        names(blocks).len() <= blocks.len(),
        forall|k: int|
            0 <= k < names(blocks).len() ==> place(blocks, #[trigger] names(blocks)[k]) is Some,
        forall|k: int, l: int|
            0 <= k < l < names(blocks).len() ==> place(blocks, #[trigger] names(blocks)[k])->0
                < place(blocks, #[trigger] names(blocks)[l])->0,
        forall|name: Seq<char>|
            #![trigger place(blocks, name)]
            place(blocks, name) is Some ==> names(blocks).contains(name),
    decreases blocks.len(),
{
    if blocks.len() > 0 {
        let front = blocks.drop_last();
        let last = blocks.last();
        assert(distinct_names(front));
        lemma_names(front);
        let before = names(front);
        match last.name {
            Some(name) => {
                lemma_place(front, name);
                if place(front, name) is Some {
                    let i = place(front, name)->0;
                    assert(front[i] == blocks[i]);
                    assert(blocks[i].name != blocks[blocks.len() - 1].name);
                }
                assert forall|k: int, l: int| 0 <= k < l < names(blocks).len() implies place(
                    blocks,
                    #[trigger] names(blocks)[k],
                )->0 < place(blocks, #[trigger] names(blocks)[l])->0 by {
                    lemma_place(front, names(blocks)[k]);
                }
                assert forall|other: Seq<char>| #![trigger place(blocks, other)]
                    place(blocks, other) is Some implies names(blocks).contains(other) by {
                    if place(front, other) is Some {
                        let k = choose|k: int| 0 <= k < before.len() && before[k] == other;
                        assert(names(blocks)[k] == other);
                    } else {
                        assert(names(blocks)[before.len() as int] == other);
                    }
                }
            },
            None => {
                assert forall|name: Seq<char>| #![trigger place(blocks, name)]
                    place(blocks, name) is Some implies names(blocks).contains(name) by {
                    assert(place(blocks, name) == place(front, name));
                }
            },
        }
    }
}

/// Asking for every name of a document that has named blocks gives one
/// entrypoint for each named block, in the order of the text.
pub proof fn lemma_round_trip(document: DocumentView)
    requires
        document.wf(),
        names(document.expressions).len() >= 1,
    ensures
        entrypoints(names(document.expressions), document) matches Ok(found) && found.len()
            == names(document.expressions).len() && within(found, document) && (forall|k: int|
            0 <= k < found.len() ==> (#[trigger] found[k]).name == names(document.expressions)[k]
                && document.expressions[found[k].index].name == Some(found[k].name)) && (forall|
            k: int,
            l: int,
        | 0 <= k < l < found.len() ==> (#[trigger] found[k]).index < (#[trigger] found[l]).index),
{
    let blocks = document.expressions;
    let all = names(blocks);
    lemma_names(blocks);
    lemma_dedup_fixed(all);
    lemma_located(all, document);
    let found = located(all, document)->Ok_0;
    assert forall|k: int| 0 <= k < found.len() implies (#[trigger] found[k]).name == all[k]
        && 0 <= found[k].index < blocks.len() && blocks[found[k].index].name == Some(
        found[k].name,
    ) by {
        lemma_place(blocks, all[k]);
    }
}

/// Once a name is placed, more blocks do not move it.
proof fn lemma_place_stays(blocks: Seq<BlockView>, name: Seq<char>, n: int)
    requires
        0 <= n <= blocks.len(),
        place(blocks.take(n), name) is Some,
    ensures
        place(blocks, name) == place(blocks.take(n), name),
    decreases blocks.len() - n,
{
    if n < blocks.len() {
        assert(blocks.take(n + 1).drop_last() =~= blocks.take(n));
        lemma_place_stays(blocks, name, n + 1);
    } else {
        assert(blocks.take(n) =~= blocks);
    }
}

/// Once a name selects no block, more names do not change the error.
proof fn lemma_located_stays(wanted: Seq<Seq<char>>, document: DocumentView, n: int)
    requires
        0 <= n <= wanted.len(),
        located(wanted.take(n), document) is Err,
    ensures
        located(wanted, document) == located(wanted.take(n), document),
    decreases wanted.len() - n,
{
    if n < wanted.len() {
        assert(wanted.take(n + 1).drop_last() =~= wanted.take(n));
        lemma_located_stays(wanted, document, n + 1);
    } else {
        assert(wanted.take(n) =~= wanted);
    }
}

/// The implicit name, as a string.
pub fn implicit() -> (name: String)
    ensures
        name@ == implicit_name(),
{
    let mut letters: Vec<char> = Vec::new();
    letters.push('m');
    letters.push('a');
    letters.push('i');
    letters.push('n');
    string_of(&letters)
}

/// The names of the named blocks, in the order of the text.
fn block_names(blocks: &Vec<ExpressionBlock>) -> (named: Vec<String>)
    ensures
        named.deep_view() == names(blocks.deep_view()),
{
    let ghost all = blocks.deep_view();
    let mut named: Vec<String> = Vec::new();
    let mut i: usize = 0;
    while i < blocks.len()
        invariant
            i <= blocks.len(),
            all == blocks.deep_view(),
            named.deep_view() == names(all.take(i as int)),
        decreases blocks.len() - i,
    {
        proof {
            assert(all.take(i + 1).drop_last() =~= all.take(i as int));
        }
        match &blocks[i].name {
            Some(name) => {
                let ghost before = named;
                let copy = name.clone();
                let ghost pushed = copy;
                named.push(copy);
                proof {
                    lemma_push_deep_view(before, named, pushed);
                }
            },
            None => {},
        }
        i += 1;
    }
    assert(all.take(blocks.len() as int) =~= all);
    named
}

/// The first block that carries `name`.
fn find_block(blocks: &Vec<ExpressionBlock>, name: &String) -> (at: Option<usize>)
    ensures
        match at {
            Some(i) => i < blocks.len() && place(blocks.deep_view(), name@) == Some(i as int),
            None => place(blocks.deep_view(), name@) is None,
        },
{
    let ghost all = blocks.deep_view();
    let mut i: usize = 0;
    while i < blocks.len()
        invariant
            i <= blocks.len(),
            all == blocks.deep_view(),
            place(all.take(i as int), name@) is None,
        decreases blocks.len() - i,
    {
        proof {
            assert(all.take(i + 1).drop_last() =~= all.take(i as int));
        }
        match &blocks[i].name {
            Some(given) => {
                if *given == *name {
                    proof {
                        lemma_place_stays(all, name@, i + 1);
                    }
                    return Some(i);
                }
            },
            None => {},
        }
        i += 1;
    }
    assert(all.take(blocks.len() as int) =~= all);
    None
}

/// The entrypoints that `requested` selects in `document`.
///
/// Repeated names count once, at their first place. The result is
/// `NotFound` with the first name that selects no block.
pub fn resolve(requested: Vec<String>, document: &DotrainDocument) -> (result: Result<
    Vec<Entrypoint>,
    EntrypointError,
>)
    ensures
        entrypoints_are(result, entrypoints(requested.deep_view(), document@)),
        result matches Ok(found) ==> within(found.deep_view(), document@),
{
    proof {
        use_type_invariant(document);
    }
    let blocks = document.expressions();
    let named = block_names(blocks);
    let unnamed = named.len() == 0;
    let wanted = if requested.len() > 0 {
        deduplicated(&requested)
    } else if !unnamed {
        named
    } else {
        let mut only: Vec<String> = Vec::new();
        only.push(implicit());
        only
    };
    let ghost all = wanted.deep_view();
    let main = implicit();
    let mut found: Vec<Entrypoint> = Vec::new();
    let mut i: usize = 0;
    assert(found.deep_view() =~= Seq::empty());
    while i < wanted.len()
        invariant
            i <= wanted.len(),
            all == wanted.deep_view(),
            all == selection(requested.deep_view(), document@),
            blocks.deep_view() == document@.expressions,
            document@.expressions.len() >= 1,
            unnamed == (names(document@.expressions).len() == 0),
            main@ == implicit_name(),
            located(all.take(i as int), document@) == Ok::<
                Seq<EntrypointView>,
                EntrypointErrorView,
            >(found.deep_view()),
            within(found.deep_view(), document@),
        decreases wanted.len() - i,
    {
        let name = &wanted[i];
        proof {
            assert(all.take(i + 1).drop_last() =~= all.take(i as int));
        }
        let index = match find_block(blocks, name) {
            Some(index) => Some(index),
            None => if unnamed && *name == main {
                Some(0)
            } else {
                None
            },
        };
        match index {
            Some(index) => {
                let ghost before = found;
                let entry = Entrypoint { name: name.clone(), index };
                let ghost pushed = entry;
                found.push(entry);
                proof {
                    lemma_push_deep_view(before, found, pushed);
                }
            },
            None => {
                proof {
                    lemma_located_stays(all, document@, i + 1);
                }
                return Err(EntrypointError::NotFound(name.clone()));
            },
        }
        i += 1;
    }
    assert(all.take(wanted.len() as int) =~= all);
    Ok(found)
}

} // verus!
