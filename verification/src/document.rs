//! The dotrain document and its parser.
//!
//! A document is read line by line.
//!
//! * Front matter is optional. It is there when the first line, trimmed, is
//!   three hyphens, and it runs to the next such line. Each of its lines is
//!   blank or a binding `key: value` with a non-empty key. A binding with the
//!   key `uses` declares a dependency; its value is one identifier.
//! * The body is what follows the front matter. It is prose with embedded
//!   expression blocks. A block starts at a line that begins, trimmed, with
//!   three backquotes; what follows them on that line is the block's name,
//!   and a block may go without one. The block ends at the next line that is,
//!   trimmed, three backquotes and nothing else.
//! * A body without any block boundary is one unnamed block.

use vstd::prelude::*;
use crate::text::{
    append,
    chars_of,
    identifier,
    is_identifier,
    join,
    lemma_join_lines,
    lemma_lines_nonempty,
    lemma_push_deep_view,
    lines,
    position,
    rows,
    slice,
    span,
    span_end,
    split_lines,
    string_of,
    trim,
    trimmed,
    CharClass,
};

verus! {

/// One `key: value` line of the front matter.
#[derive(Debug, PartialEq, Eq)]
pub struct Binding {
    pub key: String,
    pub value: String,
}

/// The model of `Binding`: the same value over sequences of characters.
pub struct BindingView {
    pub key: Seq<char>,
    pub value: Seq<char>,
}

impl View for Binding {
    type V = BindingView;

    open spec fn view(&self) -> BindingView {
        BindingView { key: self.key@, value: self.value@ }
    }
}

impl DeepView for Binding {
    type V = BindingView;

    open spec fn deep_view(&self) -> BindingView {
        self@
    }
}

/// One expression block of the body.
#[derive(Debug, PartialEq, Eq)]
pub struct ExpressionBlock {
    pub name: Option<String>,
    pub body: String,
}

/// The model of `ExpressionBlock`: the same value over sequences of characters.
pub struct BlockView {
    pub name: Option<Seq<char>>,
    pub body: Seq<char>,
}

impl View for ExpressionBlock {
    type V = BlockView;

    open spec fn view(&self) -> BlockView {
        BlockView { name: self.name.deep_view(), body: self.body@ }
    }
}

impl DeepView for ExpressionBlock {
    type V = BlockView;

    open spec fn deep_view(&self) -> BlockView {
        self@
    }
}

/// Why a text is no document.
#[derive(Clone, Copy, Debug, PartialEq, Eq, Structural)]
pub enum ParseError {
    /// The front matter is not closed, or one of its lines is neither blank
    /// nor a binding, or a `uses` binding does not hold an identifier.
    MalformedFrontmatter,
    /// A block is opened and never closed.
    UnterminatedBlock,
    /// Two blocks carry the same name.
    DuplicateBlockName,
}

/// A parsed document.
#[derive(Debug, PartialEq, Eq)]
pub struct DotrainDocument {
    frontmatter: Vec<Binding>,
    dependency_ids: Vec<String>,
    expressions: Vec<ExpressionBlock>,
}

/// The model of `DotrainDocument`: the same value over sequences of characters.
pub struct DocumentView {
    /// The bindings of the front matter, in the order of the text.
    pub frontmatter: Seq<BindingView>,
    /// The declared dependencies, each once, in the order of first mention.
    pub dependency_ids: Seq<Seq<char>>,
    /// The expression blocks, in the order of the text.
    pub expressions: Seq<BlockView>,
}

impl View for DotrainDocument {
    type V = DocumentView;

    closed spec fn view(&self) -> DocumentView {
        DocumentView {
            frontmatter: self.frontmatter.deep_view(),
            dependency_ids: self.dependency_ids.deep_view(),
            expressions: self.expressions.deep_view(),
        }
    }
}

/// The mark that opens and closes the front matter (`c` a hyphen) and the
/// blocks (`c` a backquote).
pub open spec fn mark(c: char) -> Seq<char> {
    seq![c, c, c]
}

/// The key of a binding that declares a dependency.
pub open spec fn uses_key() -> Seq<char> {
    seq!['u', 's', 'e', 's']
}

/// No two named blocks carry the same name.
pub open spec fn distinct_names(blocks: Seq<BlockView>) -> bool {
    forall|i: int, j: int|
        0 <= i < j < blocks.len() && (#[trigger] blocks[i]).name is Some ==> blocks[i].name
            != (#[trigger] blocks[j]).name
}

/// The dependencies that the bindings declare, each once, in the order of
/// first mention.
pub open spec fn declared(bindings: Seq<BindingView>) -> Seq<Seq<char>>
    decreases bindings.len(),
{
    if bindings.len() == 0 {
        Seq::empty()
    } else {
        let front = declared(bindings.drop_last());
        let binding = bindings.last();
        if binding.key == uses_key() && !front.contains(binding.value) {
            front.push(binding.value)
        } else {
            front
        }
    }
}

/// The value of the first binding with the key `key`.
pub open spec fn bound(bindings: Seq<BindingView>, key: Seq<char>) -> Option<Seq<char>>
    decreases bindings.len(),
{
    if bindings.len() == 0 {
        None
    } else {
        match bound(bindings.drop_last(), key) {
            Some(value) => Some(value),
            None => if bindings.last().key == key {
                Some(bindings.last().value)
            } else {
                None
            },
        }
    }
}

impl DocumentView {
    /// What holds of every parsed document: it has at least one block, the
    /// names of its blocks are distinct, and its dependencies are the
    /// identifiers that its front matter declares, each once.
    pub open spec fn wf(self) -> bool {
        &&& self.expressions.len() >= 1
        &&& distinct_names(self.expressions)
        &&& self.dependency_ids == declared(self.frontmatter)
        &&& self.dependency_ids.no_duplicates()
        &&& forall|i: int|
            0 <= i < self.dependency_ids.len() ==> is_identifier(#[trigger] self.dependency_ids[i])
    }
}

/// The first line at or after `from` that is, trimmed, three hyphens; the
/// number of lines where there is none.
pub open spec fn closing(ls: Seq<Seq<char>>, from: int) -> int
    decreases ls.len() - from,
{
    if from < 0 || from >= ls.len() {
        ls.len() as int
    } else if trim(ls[from]) == mark('-') {
        from
    } else {
        closing(ls, from + 1)
    }
}

/// What a line of the front matter says.
pub enum FrontLine {
    Blank,
    Malformed,
    Binding(BindingView),
}

/// What `line` says: it is blank, or a binding with a non-empty key whose
/// value, where the key is `uses`, is an identifier, or it is malformed.
pub open spec fn front_line(line: Seq<char>) -> FrontLine {
    let colon = span_end(line, 0, CharClass::NotColon);
    if trim(line).len() == 0 {
        FrontLine::Blank
    } else if colon >= line.len() {
        FrontLine::Malformed
    } else {
        let key = trim(line.subrange(0, colon));
        let value = trim(line.subrange(colon + 1, line.len() as int));
        if key.len() == 0 {
            FrontLine::Malformed
        } else if key == uses_key() && !is_identifier(value) {
            FrontLine::Malformed
        } else {
            FrontLine::Binding(BindingView { key, value })
        }
    }
}

/// The bindings of the front matter lines, or `None` where a line is
/// malformed.
pub open spec fn bindings(ls: Seq<Seq<char>>) -> Option<Seq<BindingView>>
    decreases ls.len(),
{
    if ls.len() == 0 {
        Some(Seq::empty())
    } else {
        match bindings(ls.drop_last()) {
            None => None,
            Some(front) => match front_line(ls.last()) {
                FrontLine::Blank => Some(front),
                FrontLine::Malformed => None,
                FrontLine::Binding(binding) => Some(front.push(binding)),
            },
        }
    }
}

/// Whether a line opens a block.
pub open spec fn opens(line: Seq<char>) -> bool {
    mark('`').is_prefix_of(trim(line))
}

/// Whether a line closes a block.
pub open spec fn closes(line: Seq<char>) -> bool {
    trim(line) == mark('`')
}

/// The name that an opening line gives its block.
pub open spec fn fence_name(line: Seq<char>) -> Option<Seq<char>> {
    let name = trim(trim(line).subrange(3, trim(line).len() as int));
    if name.len() == 0 {
        None
    } else {
        Some(name)
    }
}

/// A block that has been opened and not closed yet.
pub struct OpenBlock {
    pub name: Option<Seq<char>>,
    pub inner: Seq<Seq<char>>,
}

/// The state of the block scanner: the closed blocks, and the open one.
pub struct Scan {
    pub done: Seq<BlockView>,
    pub open: Option<OpenBlock>,
}

/// The scanner's state after the lines `ls`.
pub open spec fn scan(ls: Seq<Seq<char>>) -> Scan
    decreases ls.len(),
{
    if ls.len() == 0 {
        Scan { done: Seq::empty(), open: None }
    } else {
        let before = scan(ls.drop_last());
        let line = ls.last();
        match before.open {
            None => if opens(line) {
                Scan {
                    done: before.done,
                    open: Some(OpenBlock { name: fence_name(line), inner: Seq::empty() }),
                }
            } else {
                before
            },
            Some(block) => if closes(line) {
                Scan {
                    done: before.done.push(BlockView { name: block.name, body: join(block.inner) }),
                    open: None,
                }
            } else {
                Scan {
                    done: before.done,
                    open: Some(OpenBlock { name: block.name, inner: block.inner.push(line) }),
                }
            },
        }
    }
}

/// The blocks of a body.
pub open spec fn blocks(body: Seq<Seq<char>>) -> Result<Seq<BlockView>, ParseError> {
    let end = scan(body);
    if end.open is Some {
        Err(ParseError::UnterminatedBlock)
    } else if end.done.len() == 0 {
        Ok(seq![BlockView { name: None, body: join(body) }])
    } else if !distinct_names(end.done) {
        Err(ParseError::DuplicateBlockName)
    } else {
        Ok(end.done)
    }
}

/// The document that a text stands for. The front matter is read first, so
/// its error comes before those of the body; in the body an unterminated
/// block comes before a repeated name.
pub open spec fn parsed(source: Seq<char>) -> Result<DocumentView, ParseError> {
    let ls = lines(source);
    if trim(ls[0]) == mark('-') {
        let end = closing(ls, 1);
        if end >= ls.len() {
            Err(ParseError::MalformedFrontmatter)
        } else {
            match bindings(ls.subrange(1, end)) {
                None => Err(ParseError::MalformedFrontmatter),
                Some(frontmatter) => match blocks(ls.subrange(end + 1, ls.len() as int)) {
                    Err(error) => Err(error),
                    Ok(expressions) => Ok(
                        DocumentView {
                            frontmatter,
                            dependency_ids: declared(frontmatter),
                            expressions,
                        },
                    ),
                },
            }
        }
    } else {
        match blocks(ls) {
            Err(error) => Err(error),
            Ok(expressions) => Ok(
                DocumentView {
                    frontmatter: Seq::empty(),
                    dependency_ids: Seq::empty(),
                    expressions,
                },
            ),
        }
    }
}

/// Whether a result is the one that `expected` describes.
pub open spec fn document_is(
    result: Result<DotrainDocument, ParseError>,
    expected: Result<DocumentView, ParseError>,
) -> bool {
    match (result, expected) {
        (Ok(document), Ok(view)) => document@ == view,
        (Err(error), Err(other)) => error == other,
        _ => false,
    }
}

/// The value of every `uses` binding of well formed front matter is an
/// identifier.
proof fn lemma_bindings(ls: Seq<Seq<char>>)
    ensures
        bindings(ls) matches Some(found) ==> forall|i: int|
            0 <= i < found.len() && (#[trigger] found[i]).key == uses_key() ==> is_identifier(
                found[i].value,
            ),
    decreases ls.len(),
{
    if ls.len() > 0 {
        lemma_bindings(ls.drop_last());
    }
}

/// Where every `uses` binding holds an identifier, the declared dependencies
/// are identifiers, each once.
proof fn lemma_declared(found: Seq<BindingView>)
    requires
        forall|i: int|
            0 <= i < found.len() && (#[trigger] found[i]).key == uses_key() ==> is_identifier(
                found[i].value,
            ),
    ensures
        declared(found).no_duplicates(),
        forall|i: int|
            0 <= i < declared(found).len() ==> is_identifier(#[trigger] declared(found)[i]),
    decreases found.len(),
{
    if found.len() > 0 {
        let front = found.drop_last();
        lemma_declared(front);
    }
}

/// Every document that a text stands for is well formed.
pub proof fn lemma_parsed_wf(source: Seq<char>)
    ensures
        parsed(source) matches Ok(document) ==> document.wf(),
{
    let ls = lines(source);
    lemma_lines_nonempty(source);
    if trim(ls[0]) == mark('-') {
        let end = closing(ls, 1);
        if end < ls.len() {
            lemma_bindings(ls.subrange(1, end));
            match bindings(ls.subrange(1, end)) {
                Some(frontmatter) => {
                    lemma_declared(frontmatter);
                },
                None => {},
            }
        }
    }
}

/// Lines of which none opens a block leave the scanner where it started.
proof fn lemma_scan_prose(ls: Seq<Seq<char>>)
    requires
        forall|i: int| 0 <= i < ls.len() ==> !opens(#[trigger] ls[i]),
    ensures
        scan(ls) == (Scan { done: Seq::empty(), open: None }),
    decreases ls.len(),
{
    if ls.len() > 0 {
        let front = ls.drop_last();
        lemma_scan_prose(front);
    }
}

/// A text without front matter and without a line that opens a block is one
/// unnamed block, and that block holds the text as it is.
pub proof fn lemma_plain_text(source: Seq<char>)
    requires
        trim(lines(source)[0]) != mark('-'),
        forall|i: int| 0 <= i < lines(source).len() ==> !opens(#[trigger] lines(source)[i]),
    ensures
        parsed(source) == Ok::<DocumentView, ParseError>(
            DocumentView {
                frontmatter: Seq::empty(),
                dependency_ids: Seq::empty(),
                expressions: seq![BlockView { name: None, body: source }],
            },
        ),
{
    lemma_scan_prose(lines(source));
    lemma_join_lines(source);
}

/// Whether `line`, trimmed, is three times `c`.
fn is_mark(line: &Vec<char>, c: char) -> (r: bool)
    ensures
        r == (trim(line@) == mark(c)),
{
    let t = trimmed(line);
    let r = t.len() == 3 && t[0] == c && t[1] == c && t[2] == c;
    proof {
        if r {
            assert(t@ =~= mark(c));
        }
    }
    r
}

/// The name of the block that `line` opens, where it opens one.
fn opening(line: &Vec<char>) -> (r: Option<Option<String>>)
    ensures
        r is Some == opens(line@),
        r matches Some(name) ==> name.deep_view() == fence_name(line@),
{
    let t = trimmed(line);
    if t.len() >= 3 && t[0] == '`' && t[1] == '`' && t[2] == '`' {
        let rest = slice(&t, 3, t.len());
        let name = trimmed(&rest);
        if name.len() == 0 {
            Some(None)
        } else {
            Some(Some(string_of(&name)))
        }
    } else {
        proof {
            if t.len() >= 3 {
                let m = mark('`');
                assert(m[0] == '`' && m[1] == '`' && m[2] == '`');
            }
        }
        None
    }
}

/// What a line of the front matter says.
enum Read {
    Blank,
    Malformed,
    Found(Binding),
}

/// Reads one line of the front matter.
fn read_front_line(line: &Vec<char>) -> (r: Read)
    ensures
        match r {
            Read::Blank => front_line(line@) is Blank,
            Read::Malformed => front_line(line@) is Malformed,
            Read::Found(binding) => front_line(line@) == FrontLine::Binding(binding@),
        },
{
    let whole = trimmed(line);
    if whole.len() == 0 {
        return Read::Blank;
    }
    let colon = span(line, 0, CharClass::NotColon);
    if colon >= line.len() {
        return Read::Malformed;
    }
    let key = trimmed(&slice(line, 0, colon));
    let value = trimmed(&slice(line, colon + 1, line.len()));
    if key.len() == 0 {
        return Read::Malformed;
    }
    let uses = key.len() == 4 && key[0] == 'u' && key[1] == 's' && key[2] == 'e' && key[3] == 's';
    proof {
        if uses {
            assert(key@ =~= uses_key());
        } else if key.len() == 4 {
            let u = uses_key();
            assert(u[0] == 'u' && u[1] == 's' && u[2] == 'e' && u[3] == 's');
        }
    }
    if uses && !identifier(&value) {
        return Read::Malformed;
    }
    Read::Found(Binding { key: string_of(&key), value: string_of(&value) })
}

/// The lines `ls[from..]`, joined by line feeds.
fn join_rows(ls: &Vec<Vec<char>>, from: usize) -> (out: Vec<char>)
    requires
        from <= ls.len(),
    ensures
        out@ == join(rows(ls@).subrange(from as int, ls.len() as int)),
{
    let ghost all = rows(ls@);
    let mut out: Vec<char> = Vec::new();
    let mut i: usize = from;
    while i < ls.len()
        invariant
            from <= i <= ls.len(),
            all == rows(ls@),
            out@ == join(all.subrange(from as int, i as int)),
        decreases ls.len() - i,
    {
        proof {
            let next = all.subrange(from as int, i + 1);
            assert(next.drop_last() =~= all.subrange(from as int, i as int));
        }
        if i > from {
            out.push('\n');
        }
        append(&mut out, &ls[i]);
        proof {
            let next = all.subrange(from as int, i + 1);
            if i > from {
                assert(out@ =~= join(next.drop_last()) + seq!['\n'] + next.last());
            } else {
                assert(out@ =~= next[0]);
            }
        }
        i += 1;
    }
    out
}

/// Whether no two named blocks carry the same name.
fn distinct(blocks: &Vec<ExpressionBlock>) -> (r: bool)
    ensures
        r == distinct_names(blocks.deep_view()),
{
    let ghost all = blocks.deep_view();
    let mut names: Vec<String> = Vec::new();
    let ghost mut owner: Seq<int> = Seq::empty();
    let mut j: usize = 0;
    while j < blocks.len()
        invariant
            j <= blocks.len(),
            all == blocks.deep_view(),
            owner.len() == names.len(),
            forall|n: int|
                0 <= n < names.len() ==> 0 <= #[trigger] owner[n] < j && all[owner[n]].name
                    == Some(names[n]@),
            forall|i: int|
                0 <= i < j && (#[trigger] all[i]).name is Some ==> exists|n: int|
                    0 <= n < names.len() && #[trigger] owner[n] == i,
            forall|a: int, b: int|
                0 <= a < b < j && (#[trigger] all[a]).name is Some ==> all[a].name
                    != (#[trigger] all[b]).name,
        decreases blocks.len() - j,
    {
        match &blocks[j].name {
            Some(name) => {
                match position(&names, name) {
                    Some(n) => {
                        proof {
                            let i = owner[n as int];
                            assert(all[i].name is Some && all[i].name == all[j as int].name);
                        }
                        return false;
                    },
                    None => {
                        proof {
                            assert forall|a: int| 0 <= a < j && (#[trigger] all[a]).name
                                is Some implies all[a].name != all[j as int].name by {}
                        }
                        names.push(name.clone());
                        proof {
                            let ghost before = owner;
                            owner = owner.push(j as int);
                            assert forall|i: int| 0 <= i < j + 1 && (#[trigger] all[i]).name
                                is Some implies exists|n: int|
                                0 <= n < names.len() && #[trigger] owner[n] == i by {
                                if i < j {
                                    let n = choose|n: int|
                                        0 <= n < before.len() && #[trigger] before[n] == i;
                                    assert(owner[n] == i);
                                } else {
                                    assert(owner[names.len() - 1] == i);
                                }
                            }
                        }
                    },
                }
            },
            None => {},
        }
        j += 1;
    }
    true
}

/// The blocks of the body `ls[from..]`.
fn read_blocks(ls: &Vec<Vec<char>>, from: usize) -> (result: Result<
    Vec<ExpressionBlock>,
    ParseError,
>)
    requires
        from <= ls.len(),
    ensures
        match (result, blocks(rows(ls@).subrange(from as int, ls.len() as int))) {
            (Ok(found), Ok(expected)) => found.deep_view() == expected,
            (Err(error), Err(other)) => error == other,
            _ => false,
        },
{
    let ghost all = rows(ls@);
    let mut done: Vec<ExpressionBlock> = Vec::new();
    let mut open: bool = false;
    let mut name: Option<String> = None;
    let mut body: Vec<char> = Vec::new();
    let mut inner: usize = 0;
    let ghost mut held: Seq<Seq<char>> = Seq::empty();
    let mut i: usize = from;
    while i < ls.len()
        invariant
            from <= i <= ls.len(),
            all == rows(ls@),
            scan(all.subrange(from as int, i as int)).done == done.deep_view(),
            open == scan(all.subrange(from as int, i as int)).open is Some,
            open ==> scan(all.subrange(from as int, i as int)).open == Some(
                OpenBlock { name: name.deep_view(), inner: held },
            ),
            open ==> body@ == join(held) && inner == held.len(),
            inner <= i,
        decreases ls.len() - i,
    {
        let line = &ls[i];
        proof {
            let next = all.subrange(from as int, i + 1);
            assert(next.drop_last() =~= all.subrange(from as int, i as int));
        }
        if open {
            if is_mark(line, '`') {
                let ghost before = done;
                let block = ExpressionBlock { name, body: string_of(&body) };
                let ghost pushed = block;
                done.push(block);
                proof {
                    lemma_push_deep_view(before, done, pushed);
                }
                open = false;
                name = None;
                body = Vec::new();
                inner = 0;
            } else {
                if inner > 0 {
                    body.push('\n');
                }
                append(&mut body, line);
                proof {
                    let grown = held.push(line@);
                    assert(grown.drop_last() =~= held);
                    held = grown;
                }
                inner += 1;
            }
        } else {
            match opening(line) {
                Some(given) => {
                    open = true;
                    name = given;
                    body = Vec::new();
                    inner = 0;
                    proof {
                        held = Seq::empty();
                    }
                },
                None => {},
            }
        }
        i += 1;
    }
    if open {
        return Err(ParseError::UnterminatedBlock);
    }
    if done.len() == 0 {
        let whole = join_rows(ls, from);
        let block = ExpressionBlock { name: None, body: string_of(&whole) };
        let ghost only = block;
        let ghost before = done;
        done.push(block);
        proof {
            lemma_push_deep_view(before, done, only);
        }
        return Ok(done);
    }
    if !distinct(&done) {
        return Err(ParseError::DuplicateBlockName);
    }
    Ok(done)
}

/// The dependencies that `found` declares.
fn read_declared(found: &Vec<Binding>) -> (ids: Vec<String>)
    ensures
        ids.deep_view() == declared(found.deep_view()),
{
    let ghost all = found.deep_view();
    let mut ids: Vec<String> = Vec::new();
    let mut i: usize = 0;
    while i < found.len()
        invariant
            i <= found.len(),
            all == found.deep_view(),
            ids.deep_view() == declared(all.take(i as int)),
        decreases found.len() - i,
    {
        let binding = &found[i];
        proof {
            assert(all.take(i + 1).drop_last() =~= all.take(i as int));
        }
        let key = chars_of(binding.key.as_str());
        let uses = key.len() == 4 && key[0] == 'u' && key[1] == 's' && key[2] == 'e' && key[3]
            == 's';
        proof {
            if uses {
                assert(key@ =~= uses_key());
            } else if key.len() == 4 {
                let u = uses_key();
                assert(u[0] == 'u' && u[1] == 's' && u[2] == 'e' && u[3] == 's');
            }
        }
        if uses {
            let at = position(&ids, &binding.value);
            proof {
                let front = ids.deep_view();
                if at is Some {
                    assert(front[at->0 as int] == binding.value@);
                }
            }
            if at.is_none() {
                let ghost before = ids;
                let id = binding.value.clone();
                let ghost pushed = id;
                ids.push(id);
                proof {
                    lemma_push_deep_view(before, ids, pushed);
                }
            }
        }
        i += 1;
    }
    assert(all.take(found.len() as int) =~= all);
    ids
}

/// Reads a document.
pub fn parse(source: &str) -> (result: Result<DotrainDocument, ParseError>)
    ensures
        document_is(result, parsed(source@)),
        result matches Ok(document) ==> document@.wf(),
{
    let text = chars_of(source);
    let ls = split_lines(&text);
    let ghost all = rows(ls@);
    proof {
        lemma_lines_nonempty(source@);
        lemma_parsed_wf(source@);
    }
    if !is_mark(&ls[0], '-') {
        assert(all.subrange(0, ls.len() as int) =~= all);
        return match read_blocks(&ls, 0) {
            Err(error) => Err(error),
            Ok(expressions) => {
                let frontmatter: Vec<Binding> = Vec::new();
                let dependency_ids: Vec<String> = Vec::new();
                proof {
                    assert(frontmatter.deep_view() =~= Seq::empty());
                    assert(dependency_ids.deep_view() =~= Seq::empty());
                }
                Ok(DotrainDocument { frontmatter, dependency_ids, expressions })
            },
        };
    }
    let mut end: usize = 1;
    while end < ls.len() && !is_mark(&ls[end], '-')
        invariant
            1 <= end <= ls.len(),
            all == rows(ls@),
            closing(all, 1) == closing(all, end as int),
        decreases ls.len() - end,
    {
        end += 1;
    }
    if end >= ls.len() {
        return Err(ParseError::MalformedFrontmatter);
    }
    let ghost front = all.subrange(1, end as int);
    let mut frontmatter: Vec<Binding> = Vec::new();
    let mut i: usize = 1;
    while i < end
        invariant
            1 <= i <= end < ls.len(),
            all == rows(ls@),
            all == lines(source@),
            trim(all[0]) == mark('-'),
            closing(all, 1) == end,
            front == all.subrange(1, end as int),
            bindings(all.subrange(1, i as int)) == Some(frontmatter.deep_view()),
        decreases end - i,
    {
        proof {
            let next = all.subrange(1, i + 1);
            assert(next.drop_last() =~= all.subrange(1, i as int));
        }
        match read_front_line(&ls[i]) {
            Read::Blank => {},
            Read::Malformed => {
                proof {
                    lemma_bindings_stay(front, i as int);
                }
                return Err(ParseError::MalformedFrontmatter);
            },
            Read::Found(binding) => {
                let ghost before = frontmatter;
                let ghost pushed = binding;
                frontmatter.push(binding);
                proof {
                    lemma_push_deep_view(before, frontmatter, pushed);
                }
            },
        }
        i += 1;
    }
    let dependency_ids = read_declared(&frontmatter);
    match read_blocks(&ls, end + 1) {
        Err(error) => Err(error),
        Ok(expressions) => Ok(DotrainDocument { frontmatter, dependency_ids, expressions }),
    }
}

/// Once a key is bound, more bindings do not change its value.
proof fn lemma_bound_stays(bindings: Seq<BindingView>, key: Seq<char>, n: int)
    requires
        0 <= n <= bindings.len(),
        bound(bindings.take(n), key) is Some,
    ensures
        bound(bindings, key) == bound(bindings.take(n), key),
    decreases bindings.len() - n,
{
    if n < bindings.len() {
        assert(bindings.take(n + 1).drop_last() =~= bindings.take(n));
        lemma_bound_stays(bindings, key, n + 1);
    } else {
        assert(bindings.take(n) =~= bindings);
    }
}

/// Once a line of the front matter is malformed, the front matter is.
proof fn lemma_bindings_stay(ls: Seq<Seq<char>>, n: int)
    requires
        0 <= n <= ls.len(),
        bindings(ls.take(n)) is None,
    ensures
        bindings(ls) is None,
    decreases ls.len() - n,
{
    if n < ls.len() {
        assert(ls.take(n + 1).drop_last() =~= ls.take(n));
        lemma_bindings_stay(ls, n + 1);
    } else {
        assert(ls.take(n) =~= ls);
    }
}

impl DotrainDocument {
    /// Every document is well formed: there is no way to make one but `parse`.
    #[verifier::type_invariant]
    pub open spec fn well_formed(&self) -> bool {
        self@.wf()
    }

    /// The bindings of the front matter, in the order of the text.
    pub fn frontmatter(&self) -> (found: &Vec<Binding>)
        ensures
            found.deep_view() == self@.frontmatter,
    {
        &self.frontmatter
    }

    /// The value that the front matter binds `key` to; where it binds it
    /// more than once, the first value.
    pub fn binding(&self, key: &str) -> (value: Option<&String>)
        ensures
            value.deep_view() == bound(self@.frontmatter, key@),
    {
        let ghost all = self.frontmatter.deep_view();
        let wanted = key.to_owned();
        let mut i: usize = 0;
        while i < self.frontmatter.len()
            invariant
                i <= self.frontmatter.len(),
                all == self.frontmatter.deep_view(),
                all == self@.frontmatter,
                wanted@ == key@,
                bound(all.take(i as int), key@) is None,
            decreases self.frontmatter.len() - i,
        {
            proof {
                assert(all.take(i + 1).drop_last() =~= all.take(i as int));
            }
            if self.frontmatter[i].key == wanted {
                proof {
                    lemma_bound_stays(all, key@, i + 1);
                }
                return Some(&self.frontmatter[i].value);
            }
            i += 1;
        }
        assert(all.take(self.frontmatter.len() as int) =~= all);
        None
    }

    /// The declared dependencies, each once, in the order of first mention.
    pub fn dependency_ids(&self) -> (ids: &Vec<String>)
        ensures
            ids.deep_view() == self@.dependency_ids,
    {
        &self.dependency_ids
    }

    /// The expression blocks, in the order of the text.
    pub fn expressions(&self) -> (found: &Vec<ExpressionBlock>)
        ensures
            found.deep_view() == self@.expressions,
    {
        &self.expressions
    }
}

} // verus!
