//! Text as sequences of characters.
//!
//! Strings are kept as `String` at rest and scanned as `Vec<char>`; every
//! contract speaks of the `Seq<char>` that both share as their view.

use vstd::prelude::*;

verus! {

/// `String::push` appends exactly one character to the end of the string.
pub assume_specification[ String::push ](s: &mut String, ch: char)
    ensures
        final(s)@ == old(s)@.push(ch),
;

/// The classes of characters that the scanners tell apart.
#[derive(Clone, Copy, Debug)]
pub enum CharClass {
    /// Space, tab and carriage return.
    Blank,
    /// ASCII letters, ASCII digits and the underscore.
    Ident,
    /// Everything but the colon.
    NotColon,
}

impl CharClass {
    /// Whether `c` is of the class.
    pub open spec fn has(self, c: char) -> bool {
        match self {
            CharClass::Blank => c == ' ' || c == '\t' || c == '\r',
            CharClass::Ident => ('a' <= c && c <= 'z') || ('A' <= c && c <= 'Z') || ('0' <= c && c
                <= '9') || c == '_',
            CharClass::NotColon => c != ':',
        }
    }

    /// Whether `c` is of the class.
    pub fn holds(&self, c: char) -> (r: bool)
        ensures
            r == self.has(c),
    {
        match self {
            CharClass::Blank => c == ' ' || c == '\t' || c == '\r',
            CharClass::Ident => (c >= 'a' && c <= 'z') || (c >= 'A' && c <= 'Z') || (c >= '0' && c
                <= '9') || c == '_',
            CharClass::NotColon => c != ':',
        }
    }
}

/// The end of the longest run of `class` characters that starts at `from`.
pub open spec fn span_end(s: Seq<char>, from: int, class: CharClass) -> int
    decreases s.len() - from,
{
    if 0 <= from < s.len() && class.has(s[from]) {
        span_end(s, from + 1, class)
    } else {
        from
    }
}

/// The start of the longest run of `class` characters that ends at `to` and
/// does not reach below `floor`.
pub open spec fn span_start(s: Seq<char>, floor: int, to: int, class: CharClass) -> int
    decreases to,
{
    if floor < to <= s.len() && 0 < to && class.has(s[to - 1]) {
        span_start(s, floor, to - 1, class)
    } else {
        to
    }
}

/// `s` without the blanks at its two ends.
pub open spec fn trim(s: Seq<char>) -> Seq<char> {
    let lo = span_end(s, 0, CharClass::Blank);
    let hi = span_start(s, lo, s.len() as int, CharClass::Blank);
    s.subrange(lo, hi)
}

/// `s` cut at every line feed. The pieces hold no line feed, there is always
/// at least one piece, and a text that ends in a line feed ends in an empty
/// piece.
pub open spec fn lines(s: Seq<char>) -> Seq<Seq<char>>
    decreases s.len(),
{
    if s.len() == 0 {
        seq![Seq::<char>::empty()]
    } else {
        let before = lines(s.drop_last());
        if s.last() == '\n' {
            before.push(Seq::<char>::empty())
        } else {
            before.drop_last().push(before.last().push(s.last()))
        }
    }
}

/// The pieces of `parts` with a line feed between each two neighbours.
pub open spec fn join(parts: Seq<Seq<char>>) -> Seq<char>
    decreases parts.len(),
{
    if parts.len() == 0 {
        Seq::<char>::empty()
    } else if parts.len() == 1 {
        parts[0]
    } else {
        join(parts.drop_last()) + seq!['\n'] + parts.last()
    }
}

/// An identifier is a non-empty run of `CharClass::Ident` characters.
pub open spec fn is_identifier(s: Seq<char>) -> bool {
    s.len() > 0 && forall|i: int| 0 <= i < s.len() ==> CharClass::Ident.has(#[trigger] s[i])
}

/// `s` with every later repetition of an element left out.
pub open spec fn dedup(s: Seq<Seq<char>>) -> Seq<Seq<char>>
    decreases s.len(),
{
    if s.len() == 0 {
        s
    } else {
        let before = dedup(s.drop_last());
        if before.contains(s.last()) {
            before
        } else {
            before.push(s.last())
        }
    }
}

/// The views of the rows of a table of characters.
pub open spec fn rows(table: Seq<Vec<char>>) -> Seq<Seq<char>> {
    Seq::new(table.len(), |i: int| table[i]@)
}

/// An element is in a sequence if it is the last one or stands before it.
pub proof fn lemma_contains_last<A>(s: Seq<A>, x: A)
    requires
        s.len() > 0,
    ensures
        s.contains(x) <==> s.drop_last().contains(x) || s.last() == x,
{
    if s.contains(x) {
        let i = choose|i: int| 0 <= i < s.len() && s[i] == x;
        if i < s.len() - 1 {
            assert(s.drop_last()[i] == x);
        }
    }
}

/// Pushing onto a vector pushes the element's view onto the vector's deep
/// view.
pub proof fn lemma_push_deep_view<T: DeepView>(before: Vec<T>, after: Vec<T>, last: T)
    requires
        after@ == before@.push(last),
    ensures
        after.deep_view() == before.deep_view().push(last.deep_view()),
{
}

/// A run ends inside the text, holds only characters of its class, and stops
/// at a character that is not of the class.
pub proof fn lemma_span_end(s: Seq<char>, from: int, class: CharClass)
    requires
        0 <= from <= s.len(),
    ensures
        from <= span_end(s, from, class) <= s.len(),
        forall|k: int| from <= k < span_end(s, from, class) ==> class.has(#[trigger] s[k]),
        span_end(s, from, class) < s.len() ==> !class.has(s[span_end(s, from, class)]),
    decreases s.len() - from,
{
    if from < s.len() && class.has(s[from]) {
        lemma_span_end(s, from + 1, class);
    }
}

/// A run taken backwards starts at or above its floor, holds only characters
/// of its class, and stops behind a character that is not of the class.
pub proof fn lemma_span_start(s: Seq<char>, floor: int, to: int, class: CharClass)
    requires
        0 <= floor <= to <= s.len(),
    ensures
        floor <= span_start(s, floor, to, class) <= to,
        forall|k: int| span_start(s, floor, to, class) <= k < to ==> class.has(#[trigger] s[k]),
        floor < span_start(s, floor, to, class) ==> !class.has(
            s[span_start(s, floor, to, class) - 1],
        ),
    decreases to,
{
    if floor < to && class.has(s[to - 1]) {
        lemma_span_start(s, floor, to - 1, class);
    }
}

/// Trimming leaves no blank at either end, and takes nothing from a text that
/// has none there.
pub proof fn lemma_trim(s: Seq<char>)
    ensures
        trim(s).len() <= s.len(),
        trim(s).len() > 0 ==> !CharClass::Blank.has(trim(s).first()) && !CharClass::Blank.has(
            trim(s).last(),
        ),
        (s.len() > 0 && !CharClass::Blank.has(s.first()) && !CharClass::Blank.has(s.last()))
            ==> trim(s) == s,
        s.len() == 0 ==> trim(s) == s,
{
    let lo = span_end(s, 0, CharClass::Blank);
    lemma_span_end(s, 0, CharClass::Blank);
    lemma_span_start(s, lo, s.len() as int, CharClass::Blank);
}

/// Every text has at least one line.
pub proof fn lemma_lines_nonempty(s: Seq<char>)
    ensures
        lines(s).len() >= 1,
    decreases s.len(),
{
    if s.len() > 0 {
        lemma_lines_nonempty(s.drop_last());
    }
}

/// Joining the lines of a text gives the text back.
pub proof fn lemma_join_lines(s: Seq<char>)
    ensures
        join(lines(s)) == s,
    decreases s.len(),
{
    if s.len() > 0 {
        let before = lines(s.drop_last());
        lemma_lines_nonempty(s.drop_last());
        lemma_join_lines(s.drop_last());
        if s.last() == '\n' {
            let after = before.push(Seq::<char>::empty());
            assert(after.drop_last() =~= before);
        } else {
            let grown = before.last().push(s.last());
            let after = before.drop_last().push(grown);
            assert(after.drop_last() =~= before.drop_last());
            assert(join(after) =~= join(before).push(s.last()));
        }
    }
}

/// `dedup` keeps every element once: the result has no repetitions and holds
/// exactly the elements of the sequence.
pub proof fn lemma_dedup(s: Seq<Seq<char>>)
    ensures
        dedup(s).no_duplicates(),
        dedup(s).len() <= s.len(),
        forall|x: Seq<char>| dedup(s).contains(x) <==> s.contains(x),
    decreases s.len(),
{
    if s.len() > 0 {
        let before = dedup(s.drop_last());
        lemma_dedup(s.drop_last());
        assert forall|x: Seq<char>| dedup(s).contains(x) <==> s.contains(x) by {
            if s.contains(x) {
                let i = choose|i: int| 0 <= i < s.len() && s[i] == x;
                if i < s.len() - 1 {
                    assert(s.drop_last()[i] == x);
                    assert(s.drop_last().contains(x));
                    let j = choose|j: int| 0 <= j < before.len() && before[j] == x;
                    assert(dedup(s)[j] == x);
                } else {
                    if !before.contains(x) {
                        assert(dedup(s)[before.len() as int] == x);
                    }
                }
            }
            if dedup(s).contains(x) {
                let j = choose|j: int| 0 <= j < dedup(s).len() && dedup(s)[j] == x;
                if j < before.len() {
                    assert(s.drop_last().contains(x));
                }
            }
        }
    }
}

/// A sequence without repetitions is its own `dedup`.
pub proof fn lemma_dedup_fixed(s: Seq<Seq<char>>)
    requires
        s.no_duplicates(),
    ensures
        dedup(s) == s,
    decreases s.len(),
{
    if s.len() > 0 {
        lemma_dedup_fixed(s.drop_last());
    }
}

/// The characters of `s`.
pub fn chars_of(s: &str) -> (out: Vec<char>)
    ensures
        out@ == s@,
{
    let mut out: Vec<char> = Vec::new();
    for c in it: s.chars()
        invariant
            out@ == it.seq().take(it.index() as int),
            it.seq() == s@,
    {
        out.push(c);
    }
    out
}

/// The string of the characters `v`.
pub fn string_of(v: &Vec<char>) -> (out: String)
    ensures
        out@ == v@,
{
    let mut out = String::new();
    let mut i: usize = 0;
    while i < v.len()
        invariant
            i <= v.len(),
            out@ == v@.take(i as int),
        decreases v.len() - i,
    {
        out.push(v[i]);
        i += 1;
    }
    out
}

/// The characters of `v` from `lo` up to `hi`.
pub fn slice(v: &Vec<char>, lo: usize, hi: usize) -> (out: Vec<char>)
    requires
        lo <= hi <= v.len(),
    ensures
        out@ == v@.subrange(lo as int, hi as int),
{
    let mut out: Vec<char> = Vec::new();
    let mut i: usize = lo;
    while i < hi
        invariant
            lo <= i <= hi <= v.len(),
            out@ == v@.subrange(lo as int, i as int),
        decreases hi - i,
    {
        out.push(v[i]);
        i += 1;
    }
    out
}

/// Puts `tail` behind `out`.
pub fn append(out: &mut Vec<char>, tail: &Vec<char>)
    ensures
        final(out)@ == old(out)@ + tail@,
{
    let mut i: usize = 0;
    while i < tail.len()
        invariant
            i <= tail.len(),
            out@ == old(out)@ + tail@.take(i as int),
        decreases tail.len() - i,
    {
        out.push(tail[i]);
        i += 1;
    }
}

/// The end of the longest run of `class` characters that starts at `from`.
pub fn span(v: &Vec<char>, from: usize, class: CharClass) -> (end: usize)
    requires
        from <= v.len(),
    ensures
        end == span_end(v@, from as int, class),
        from <= end <= v.len(),
{
    let mut end: usize = from;
    while end < v.len() && class.holds(v[end])
        invariant
            from <= end <= v.len(),
            span_end(v@, from as int, class) == span_end(v@, end as int, class),
        decreases v.len() - end,
    {
        end += 1;
    }
    end
}

/// The start of the longest run of `class` characters that ends at `to` and
/// does not reach below `floor`.
pub fn span_back(v: &Vec<char>, floor: usize, to: usize, class: CharClass) -> (start: usize)
    requires
        floor <= to <= v.len(),
    ensures
        start == span_start(v@, floor as int, to as int, class),
        floor <= start <= to,
{
    let mut start: usize = to;
    while start > floor && class.holds(v[start - 1])
        invariant
            floor <= start <= to <= v.len(),
            span_start(v@, floor as int, to as int, class) == span_start(
                v@,
                floor as int,
                start as int,
                class,
            ),
        decreases start,
    {
        start -= 1;
    }
    start
}

/// `v` without the blanks at its two ends.
pub fn trimmed(v: &Vec<char>) -> (out: Vec<char>)
    ensures
        out@ == trim(v@),
{
    let lo = span(v, 0, CharClass::Blank);
    let hi = span_back(v, lo, v.len(), CharClass::Blank);
    slice(v, lo, hi)
}

/// `v` cut at every line feed.
pub fn split_lines(v: &Vec<char>) -> (out: Vec<Vec<char>>)
    ensures
        rows(out@) == lines(v@),
{
    let mut out: Vec<Vec<char>> = Vec::new();
    let mut cur: Vec<char> = Vec::new();
    let mut i: usize = 0;
    while i < v.len()
        invariant
            i <= v.len(),
            rows(out@).push(cur@) == lines(v@.take(i as int)),
        decreases v.len() - i,
    {
        let c = v[i];
        proof {
            assert(v@.take(i + 1).drop_last() =~= v@.take(i as int));
        }
        if c == '\n' {
            out.push(cur);
            cur = Vec::new();
        } else {
            cur.push(c);
        }
        i += 1;
    }
    assert(v@.take(v.len() as int) =~= v@);
    out.push(cur);
    out
}

/// Whether `v` is an identifier.
pub fn identifier(v: &Vec<char>) -> (r: bool)
    ensures
        r == is_identifier(v@),
{
    if v.len() == 0 {
        return false;
    }
    let end = span(v, 0, CharClass::Ident);
    proof {
        lemma_span_end(v@, 0, CharClass::Ident);
    }
    end == v.len()
}

/// The first place at which `needle` stands in `list`.
pub fn position(list: &Vec<String>, needle: &String) -> (at: Option<usize>)
    ensures
        match at {
            Some(i) => i < list.len() && list[i as int]@ == needle@ && forall|j: int|
                0 <= j < i ==> list[j]@ != needle@,
            None => forall|j: int| 0 <= j < list.len() ==> list[j]@ != needle@,
        },
{
    let mut i: usize = 0;
    while i < list.len()
        invariant
            i <= list.len(),
            forall|j: int| 0 <= j < i ==> list[j]@ != needle@,
        decreases list.len() - i,
    {
        if list[i] == *needle {
            return Some(i);
        }
        i += 1;
    }
    None
}

/// `list` with every later repetition of an element left out.
pub fn deduplicated(list: &Vec<String>) -> (out: Vec<String>)
    ensures
        out.deep_view() == dedup(list.deep_view()),
{
    let mut out: Vec<String> = Vec::new();
    let mut i: usize = 0;
    while i < list.len()
        invariant
            i <= list.len(),
            out.deep_view() == dedup(list.deep_view().take(i as int)),
        decreases list.len() - i,
    {
        let ghost before = out.deep_view();
        let ghost item = list[i as int]@;
        proof {
            assert(list.deep_view().take(i + 1).drop_last() =~= list.deep_view().take(i as int));
        }
        let found = position(&out, &list[i]);
        proof {
            if found is Some {
                assert(before[found->0 as int] == item);
            }
        }
        if found.is_none() {
            out.push(list[i].clone());
        }
        i += 1;
    }
    assert(list.deep_view().take(list.len() as int) =~= list.deep_view());
    out
}

} // verus!
