//! The rainconfig model: where auxiliary metadata is looked for.
//!
//! A configuration names local files (`include`, one per identifier) and
//! subgraph endpoints (`subgraphs`, in priority order). An entry may be
//! flagged `skip`; a flagged entry is left out whenever force mode is on.

use vstd::prelude::*;
use crate::text::{lemma_push_deep_view, position};

verus! {

/// A local file that holds the metadata of one identifier.
#[derive(Debug, PartialEq, Eq)]
pub struct IncludeEntry {
    pub id: String,
    pub path: String,
    pub skip: bool,
}

/// The model of `IncludeEntry`: the same value over sequences of characters.
pub struct IncludeEntryView {
    pub id: Seq<char>,
    pub path: Seq<char>,
    pub skip: bool,
}

impl View for IncludeEntry {
    type V = IncludeEntryView;

    open spec fn view(&self) -> IncludeEntryView {
        IncludeEntryView { id: self.id@, path: self.path@, skip: self.skip }
    }
}

impl DeepView for IncludeEntry {
    type V = IncludeEntryView;

    open spec fn deep_view(&self) -> IncludeEntryView {
        self@
    }
}

/// A subgraph endpoint.
#[derive(Debug, PartialEq, Eq)]
pub struct SubgraphEntry {
    pub url: String,
    pub skip: bool,
}

/// The model of `SubgraphEntry`: the same value over sequences of characters.
pub struct SubgraphEntryView {
    pub url: Seq<char>,
    pub skip: bool,
}

impl View for SubgraphEntry {
    type V = SubgraphEntryView;

    open spec fn view(&self) -> SubgraphEntryView {
        SubgraphEntryView { url: self.url@, skip: self.skip }
    }
}

impl DeepView for SubgraphEntry {
    type V = SubgraphEntryView;

    open spec fn deep_view(&self) -> SubgraphEntryView {
        self@
    }
}

/// What is wrong with a configuration.
#[derive(Debug, PartialEq, Eq)]
pub enum ConfigError {
    /// The configuration document could not be read as one.
    Parse,
    /// Two `include` entries carry this identifier.
    DuplicateId(String),
    /// The `include` file at this path cannot be reached.
    MissingInclude(String),
}

/// The model of `ConfigError`: the same value over sequences of characters.
pub enum ConfigErrorView {
    Parse,
    DuplicateId(Seq<char>),
    MissingInclude(Seq<char>),
}

impl View for ConfigError {
    type V = ConfigErrorView;

    open spec fn view(&self) -> ConfigErrorView {
        match self {
            ConfigError::Parse => ConfigErrorView::Parse,
            ConfigError::DuplicateId(id) => ConfigErrorView::DuplicateId(id@),
            ConfigError::MissingInclude(path) => ConfigErrorView::MissingInclude(path@),
        }
    }
}

/// An `include` entry as the configuration document declares it, with what a
/// probe of its path found.
#[derive(Debug, PartialEq, Eq)]
pub struct DeclaredInclude {
    pub id: String,
    pub path: String,
    pub reachable: bool,
}

/// The model of `DeclaredInclude`: the same value over sequences of characters.
pub struct DeclaredIncludeView {
    pub id: Seq<char>,
    pub path: Seq<char>,
    pub reachable: bool,
}

impl View for DeclaredInclude {
    type V = DeclaredIncludeView;

    open spec fn view(&self) -> DeclaredIncludeView {
        DeclaredIncludeView { id: self.id@, path: self.path@, reachable: self.reachable }
    }
}

impl DeepView for DeclaredInclude {
    type V = DeclaredIncludeView;

    open spec fn deep_view(&self) -> DeclaredIncludeView {
        self@
    }
}

/// What reading the configuration path gave.
#[derive(Debug, PartialEq, Eq)]
pub enum ConfigDocument {
    /// No configuration path was given.
    Absent,
    /// The document is not a configuration document.
    Malformed,
    /// The recognised fields of the document; unknown fields are dropped
    /// before this point.
    Declared { includes: Vec<DeclaredInclude>, subgraphs: Vec<String> },
}

/// The model of `ConfigDocument`: the same value over sequences of characters.
pub enum ConfigDocumentView {
    Absent,
    Malformed,
    Declared { includes: Seq<DeclaredIncludeView>, subgraphs: Seq<Seq<char>> },
}

impl View for ConfigDocument {
    type V = ConfigDocumentView;

    open spec fn view(&self) -> ConfigDocumentView {
        match self {
            ConfigDocument::Absent => ConfigDocumentView::Absent,
            ConfigDocument::Malformed => ConfigDocumentView::Malformed,
            ConfigDocument::Declared { includes, subgraphs } => ConfigDocumentView::Declared {
                includes: includes.deep_view(),
                subgraphs: subgraphs.deep_view(),
            },
        }
    }
}

/// A validated configuration.
#[derive(Debug, PartialEq, Eq)]
pub struct RainConfig {
    includes: Vec<IncludeEntry>,
    subgraphs: Vec<SubgraphEntry>,
}

/// The model of `RainConfig`: the same value over sequences of characters.
pub struct RainConfigView {
    pub includes: Seq<IncludeEntryView>,
    pub subgraphs: Seq<SubgraphEntryView>,
}

impl View for RainConfig {
    type V = RainConfigView;

    closed spec fn view(&self) -> RainConfigView {
        RainConfigView {
            includes: self.includes.deep_view(),
            subgraphs: self.subgraphs.deep_view(),
        }
    }
}

impl RainConfigView {
    /// The configuration without any source.
    pub open spec fn empty() -> RainConfigView {
        RainConfigView { includes: Seq::empty(), subgraphs: Seq::empty() }
    }

    /// No two `include` entries carry the same identifier.
    pub open spec fn wf(self) -> bool {
        forall|i: int, j: int|
            0 <= i < j < self.includes.len() ==> (#[trigger] self.includes[i]).id
                != (#[trigger] self.includes[j]).id
    }
}

/// The first entry of `include` whose identifier an earlier entry carries.
pub open spec fn first_repeat(includes: Seq<IncludeEntryView>) -> Option<int>
    decreases includes.len(),
{
    if includes.len() == 0 {
        None
    } else {
        match first_repeat(includes.drop_last()) {
            Some(j) => Some(j),
            None => if exists|i: int|
                0 <= i < includes.len() - 1 && (#[trigger] includes[i]).id == includes.last().id {
                Some(includes.len() - 1)
            } else {
                None
            },
        }
    }
}

/// The first entry of `include` that was declared unreachable.
pub open spec fn first_unreachable(includes: Seq<DeclaredIncludeView>) -> Option<int>
    decreases includes.len(),
{
    if includes.len() == 0 {
        None
    } else {
        match first_unreachable(includes.drop_last()) {
            Some(j) => Some(j),
            None => if !includes.last().reachable {
                Some(includes.len() - 1)
            } else {
                None
            },
        }
    }
}

/// The entries that a declaration stands for: an unreachable file is
/// flagged `skip`.
pub open spec fn accepted_include(includes: Seq<DeclaredIncludeView>) -> Seq<IncludeEntryView> {
    Seq::new(
        includes.len(),
        |i: int|
            IncludeEntryView {
                id: includes[i].id,
                path: includes[i].path,
                skip: !includes[i].reachable,
            },
    )
}

/// The entries that declared endpoints stand for: none is flagged.
pub open spec fn accepted_subgraphs(subgraphs: Seq<Seq<char>>) -> Seq<SubgraphEntryView> {
    Seq::new(subgraphs.len(), |i: int| SubgraphEntryView { url: subgraphs[i], skip: false })
}

/// What `RainConfig::new` makes of the two lists.
pub open spec fn checked(
    includes: Seq<IncludeEntryView>,
    subgraphs: Seq<SubgraphEntryView>,
) -> Result<RainConfigView, ConfigErrorView> {
    match first_repeat(includes) {
        Some(j) => Err(ConfigErrorView::DuplicateId(includes[j].id)),
        None => Ok(RainConfigView { includes, subgraphs }),
    }
}

/// What `load` makes of a document. A malformed document is a `Parse`
/// error; a repeated identifier is a `DuplicateId` error whatever `force`
/// says; an unreachable file is a `MissingInclude` error unless `force` is
/// set, and then its entry is kept and flagged `skip`.
pub open spec fn loaded(document: ConfigDocumentView, force: bool) -> Result<
    RainConfigView,
    ConfigErrorView,
> {
    match document {
        ConfigDocumentView::Absent => Ok(RainConfigView::empty()),
        ConfigDocumentView::Malformed => Err(ConfigErrorView::Parse),
        ConfigDocumentView::Declared { includes, subgraphs } => {
            match checked(accepted_include(includes), accepted_subgraphs(subgraphs)) {
                Err(e) => Err(e),
                Ok(config) => match first_unreachable(includes) {
                    Some(j) => if force {
                        Ok(config)
                    } else {
                        Err(ConfigErrorView::MissingInclude(includes[j].path))
                    },
                    None => Ok(config),
                },
            }
        },
    }
}

/// Whether a result is the one that `expected` describes.
pub open spec fn config_is(
    result: Result<RainConfig, ConfigError>,
    expected: Result<RainConfigView, ConfigErrorView>,
) -> bool {
    match (result, expected) {
        (Ok(config), Ok(view)) => config@ == view,
        (Err(error), Err(view)) => error@ == view,
        _ => false,
    }
}

/// Without a repeat, the identifiers of `include` are pairwise distinct, and
/// a repeat names a place where they are not.
pub proof fn lemma_first_repeat(includes: Seq<IncludeEntryView>)
    ensures
        first_repeat(includes) is None <==> (RainConfigView {
            includes,
            subgraphs: Seq::empty(),
        }).wf(),
        first_repeat(includes) matches Some(j) ==> 0 < j < includes.len() && exists|i: int|
            0 <= i < j && (#[trigger] includes[i]).id == includes[j].id,
    decreases includes.len(),
{
    if includes.len() > 0 {
        let front = includes.drop_last();
        lemma_first_repeat(front);
        let whole = RainConfigView { includes, subgraphs: Seq::empty() };
        let part = RainConfigView { includes: front, subgraphs: Seq::empty() };
        match first_repeat(front) {
            Some(j) => {
                assert(!whole.wf());
            },
            None => {
                if first_repeat(includes) is None {
                    assert forall|i: int, j: int| 0 <= i < j < includes.len() implies (
                    #[trigger] includes[i]).id != (#[trigger] includes[j]).id by {
                        if j < includes.len() - 1 {
                            assert(part.includes[i].id != part.includes[j].id);
                        }
                    }
                }
            },
        }
    }
}

impl RainConfig {
    /// The configuration without any source.
    pub fn empty() -> (config: RainConfig)
        ensures
            config@ == RainConfigView::empty(),
            config@.wf(),
    {
        let config = RainConfig { includes: Vec::new(), subgraphs: Vec::new() };
        assert(config@.includes =~= Seq::empty());
        assert(config@.subgraphs =~= Seq::empty());
        config
    }

    /// A configuration of the given entries, or `DuplicateId` with the
    /// identifier of the first entry that repeats an earlier one.
    pub fn new(includes: Vec<IncludeEntry>, subgraphs: Vec<SubgraphEntry>) -> (result: Result<
        RainConfig,
        ConfigError,
    >)
        ensures
            config_is(result, checked(includes.deep_view(), subgraphs.deep_view())),
            result matches Ok(config) ==> config@.wf(),
    {
        let ghost all = includes.deep_view();
        let mut seen: Vec<String> = Vec::new();
        let mut j: usize = 0;
        while j < includes.len()
            invariant
                j <= includes.len(),
                all == includes.deep_view(),
                seen.len() == j,
                forall|i: int| 0 <= i < j ==> seen[i]@ == (#[trigger] all[i]).id,
                first_repeat(all.take(j as int)) is None,
            decreases includes.len() - j,
        {
            proof {
                assert(all.take(j + 1).drop_last() =~= all.take(j as int));
            }
            match position(&seen, &includes[j].id) {
                Some(i) => {
                    proof {
                        assert(all.take(j + 1)[i as int].id == all.take(j + 1).last().id);
                        lemma_first_repeat_stays(all, j + 1);
                    }
                    return Err(ConfigError::DuplicateId(includes[j].id.clone()));
                },
                None => {},
            }
            seen.push(includes[j].id.clone());
            j += 1;
        }
        proof {
            assert(all.take(includes.len() as int) =~= all);
            lemma_first_repeat(all);
        }
        let config = RainConfig { includes, subgraphs };
        proof {
            let whole = RainConfigView { includes: all, subgraphs: Seq::empty() };
            assert forall|i: int, j: int| 0 <= i < j < config@.includes.len() implies (
            #[trigger] config@.includes[i]).id != (#[trigger] config@.includes[j]).id by {
                assert(whole.includes[i].id != whole.includes[j].id);
            }
        }
        Ok(config)
    }

    /// The configuration that a document stands for.
    pub fn load(document: ConfigDocument, force: bool) -> (result: Result<RainConfig, ConfigError>)
        ensures
            config_is(result, loaded(document@, force)),
            result matches Ok(config) ==> config@.wf(),
    {
        match document {
            ConfigDocument::Absent => Ok(RainConfig::empty()),
            ConfigDocument::Malformed => Err(ConfigError::Parse),
            ConfigDocument::Declared { includes, subgraphs } => {
                let ghost declared = includes.deep_view();
                let ghost urls = subgraphs.deep_view();
                let mut entries: Vec<IncludeEntry> = Vec::new();
                let mut missing: Option<usize> = None;
                let mut i: usize = 0;
                while i < includes.len()
                    invariant
                        i <= includes.len(),
                        declared == includes.deep_view(),
                        entries.deep_view() == accepted_include(declared.take(i as int)),
                        match missing {
                            Some(j) => j < i && first_unreachable(declared.take(i as int)) == Some(
                                j as int,
                            ),
                            None => first_unreachable(declared.take(i as int)) is None,
                        },
                    decreases includes.len() - i,
                {
                    proof {
                        assert(declared.take(i + 1).drop_last() =~= declared.take(i as int));
                    }
                    let ghost before = entries;
                    if missing.is_none() && !includes[i].reachable {
                        missing = Some(i);
                    }
                    let entry = IncludeEntry {
                        id: includes[i].id.clone(),
                        path: includes[i].path.clone(),
                        skip: !includes[i].reachable,
                    };
                    let ghost pushed = entry;
                    entries.push(entry);
                    proof {
                        lemma_push_deep_view(before, entries, pushed);
                    }
                    i += 1;
                }
                assert(declared.take(includes.len() as int) =~= declared);
                let mut endpoints: Vec<SubgraphEntry> = Vec::new();
                let mut k: usize = 0;
                while k < subgraphs.len()
                    invariant
                        k <= subgraphs.len(),
                        urls == subgraphs.deep_view(),
                        endpoints.deep_view() == accepted_subgraphs(urls.take(k as int)),
                    decreases subgraphs.len() - k,
                {
                    let ghost before = endpoints;
                    let endpoint = SubgraphEntry { url: subgraphs[k].clone(), skip: false };
                    let ghost pushed = endpoint;
                    endpoints.push(endpoint);
                    proof {
                        lemma_push_deep_view(before, endpoints, pushed);
                    }
                    k += 1;
                }
                assert(urls.take(subgraphs.len() as int) =~= urls);
                match RainConfig::new(entries, endpoints) {
                    Err(e) => Err(e),
                    Ok(config) => match missing {
                        Some(j) => if force {
                            Ok(config)
                        } else {
                            Err(ConfigError::MissingInclude(includes[j].path.clone()))
                        },
                        None => Ok(config),
                    },
                }
            },
        }
    }

    /// The local files, in the order of the document.
    pub fn includes(&self) -> (entries: &Vec<IncludeEntry>)
        ensures
            entries.deep_view() == self@.includes,
    {
        &self.includes
    }

    /// The subgraph endpoints, in priority order.
    pub fn subgraphs(&self) -> (entries: &Vec<SubgraphEntry>)
        ensures
            entries.deep_view() == self@.subgraphs,
    {
        &self.subgraphs
    }
}

/// A repeat among the first `n` entries is the first repeat of the whole.
proof fn lemma_first_repeat_stays(includes: Seq<IncludeEntryView>, n: int)
    requires
        0 <= n <= includes.len(),
        first_repeat(includes.take(n)) is Some,
    ensures
        first_repeat(includes) == first_repeat(includes.take(n)),
    decreases includes.len() - n,
{
    if n < includes.len() {
        assert(includes.take(n + 1).drop_last() =~= includes.take(n));
        lemma_first_repeat_stays(includes, n + 1);
    } else {
        assert(includes.take(n) =~= includes);
    }
}

} // verus!
