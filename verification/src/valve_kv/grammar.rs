//! The grammar of entity text.
//!
//! ```text
//! blocks   = block* end-of-input
//! block    = "{" property* "}"
//! property = string string
//! string   = '"' (any byte but '"')* '"'
//!          | (any byte but white space, '"', "{" and "}")+
//! ```
//!
//! White space (space, tab, carriage return, line feed and the zero byte that
//! ends an entity list) may stand between any two tokens.

use vstd::prelude::*;
use vstd::utf8::*;

use crate::text;

verus! {

broadcast use vstd::string::group_string_axioms;

pub open spec fn is_space(c: u8) -> bool {
    c == 0x20 || c == 0x09 || c == 0x0d || c == 0x0a || c == 0
}

/// A byte of a string without quotes.
pub open spec fn is_bare(c: u8) -> bool {
    !is_space(c) && c != 0x22 && c != 0x7b && c != 0x7d
}

/// The first position from `i` on without white space.
pub open spec fn skip_space(b: Seq<u8>, i: int) -> int
    decreases b.len() - i,
{
    if 0 <= i < b.len() && is_space(b[i]) {
        skip_space(b, i + 1)
    } else {
        i
    }
}

/// The first position from `i` on with a double quote, or the end.
pub open spec fn find_quote(b: Seq<u8>, i: int) -> int
    decreases b.len() - i,
{
    if 0 <= i < b.len() && b[i] != 0x22 {
        find_quote(b, i + 1)
    } else {
        i
    }
}

/// The first position from `i` on that cannot be in a string without quotes.
pub open spec fn skip_bare(b: Seq<u8>, i: int) -> int
    decreases b.len() - i,
{
    if 0 <= i < b.len() && is_bare(b[i]) {
        skip_bare(b, i + 1)
    } else {
        i
    }
}

/// What a text lacks.
#[derive(Debug, Clone, Copy, PartialEq, Eq, Structural)]
pub enum Lack {
    /// A block, or the end of the text.
    Block,
    /// A property, or the end of the block.
    Property,
    /// The value of a property.
    Value,
    /// The closing quote of a string.
    Quote,
}

/// Where a text stops being well formed, and what it lacks there.
pub struct Fault {
    pub lack: Lack,
    pub at: int,
}

/// A string: from its first byte to beyond its last one.
pub struct StringSpan {
    pub start: int,
    pub end: int,
}

/// A property.
pub struct PropertySpan {
    pub key: StringSpan,
    pub value: StringSpan,
}

/// A block: from its opening brace to beyond its closing one.
pub struct BlockSpan {
    pub start: int,
    pub end: int,
    pub properties: Seq<PropertySpan>,
}

/// The string that starts at `i`; `lack` is what is lacking where none does.
pub open spec fn string_at(b: Seq<u8>, i: int, lack: Lack) -> Result<StringSpan, Fault> {
    if i >= b.len() {
        Err(Fault { lack, at: i })
    } else if b[i] == 0x22 {
        let end = find_quote(b, i + 1);
        if end < b.len() {
            Ok(StringSpan { start: i, end: end + 1 })
        } else {
            Err(Fault { lack: Lack::Quote, at: i })
        }
    } else if is_bare(b[i]) {
        Ok(StringSpan { start: i, end: skip_bare(b, i) })
    } else {
        Err(Fault { lack, at: i })
    }
}

/// The property that starts at `i`.
pub open spec fn property_at(b: Seq<u8>, i: int) -> Result<PropertySpan, Fault> {
    match string_at(b, i, Lack::Property) {
        Err(f) => Err(f),
        Ok(key) => match string_at(b, skip_space(b, key.end), Lack::Value) {
            Err(f) => Err(f),
            Ok(value) => Ok(PropertySpan { key, value }),
        },
    }
}

/// The properties from `i` on, up to a closing brace, and the position beyond
/// that.
pub open spec fn properties_from(b: Seq<u8>, i: int) -> Result<(Seq<PropertySpan>, int), Fault>
    decreases b.len() - i,
    when 0 <= i <= b.len()
{
    let j = skip_space(b, i);
    if j < b.len() && b[j] == 0x7d {
        Ok((Seq::empty(), j + 1))
    } else {
        match property_at(b, j) {
            Err(f) => Err(f),
            Ok(p) => {
                proof {
                    lemma_skip_space(b, i);
                    lemma_property_at(b, j);
                }
                match properties_from(b, p.value.end) {
                    Err(f) => Err(f),
                    Ok((rest, end)) => Ok((seq![p] + rest, end)),
                }
            },
        }
    }
}

/// The blocks from `i` on.
pub open spec fn blocks_from(b: Seq<u8>, i: int) -> Result<Seq<BlockSpan>, Fault>
    decreases b.len() - i,
    when 0 <= i <= b.len()
{
    let j = skip_space(b, i);
    if j >= b.len() {
        Ok(Seq::empty())
    } else if b[j] == 0x7b {
        match properties_from(b, j + 1) {
            Err(f) => Err(f),
            Ok((properties, end)) => {
                proof {
                    lemma_skip_space(b, i);
                    lemma_properties_from(b, j + 1);
                }
                match blocks_from(b, end) {
                    Err(f) => Err(f),
                    Ok(rest) => Ok(seq![BlockSpan { start: j, end, properties }] + rest),
                }
            },
        }
    } else {
        Err(Fault { lack: Lack::Block, at: j })
    }
}

/// What is said of a lack.
pub open spec fn lack_text(lack: Lack) -> Seq<char> {
    match lack {
        Lack::Block => "expected a block"@,
        Lack::Property => "expected a property or the end of the block"@,
        Lack::Value => "expected a value"@,
        Lack::Quote => "unclosed string"@,
    }
}

/// What is said of a fault.
pub open spec fn fault_text(f: Fault) -> Seq<char> {
    lack_text(f.lack) + " at byte "@ + text::decimal(f.at as nat)
}

pub proof fn lemma_skip_space(b: Seq<u8>, i: int)
    requires
        0 <= i <= b.len(),
    ensures
        i <= skip_space(b, i) <= b.len(),
    decreases b.len() - i,
{
    if i < b.len() && is_space(b[i]) {
        lemma_skip_space(b, i + 1);
    }
}

proof fn lemma_find_quote(b: Seq<u8>, i: int)
    requires
        0 <= i <= b.len(),
    ensures
        i <= find_quote(b, i) <= b.len(),
        find_quote(b, i) < b.len() ==> b[find_quote(b, i)] == 0x22,
    decreases b.len() - i,
{
    if i < b.len() && b[i] != 0x22 {
        lemma_find_quote(b, i + 1);
    }
}

proof fn lemma_skip_bare(b: Seq<u8>, i: int)
    requires
        0 <= i <= b.len(),
    ensures
        i <= skip_bare(b, i) <= b.len(),
        skip_bare(b, i) < b.len() ==> !is_bare(b[skip_bare(b, i)]),
    decreases b.len() - i,
{
    if i < b.len() && is_bare(b[i]) {
        lemma_skip_bare(b, i + 1);
    }
}

/// A string lies in the text and is not empty.
pub proof fn lemma_string_at(b: Seq<u8>, i: int, lack: Lack)
    requires
        0 <= i <= b.len(),
    ensures
        match string_at(b, i, lack) {
            Ok(s) => s.start == i < s.end <= b.len(),
            Err(f) => f.at == i,
        },
{
    if i < b.len() {
        if b[i] == 0x22 {
            lemma_find_quote(b, i + 1);
        } else if is_bare(b[i]) {
            lemma_skip_bare(b, i + 1);
        }
    }
}

/// A property lies in the text, its value behind its key.
pub proof fn lemma_property_at(b: Seq<u8>, i: int)
    requires
        0 <= i <= b.len(),
    ensures
        match property_at(b, i) {
            Ok(p) => p.key.start == i < p.key.end <= p.value.start < p.value.end <= b.len(),
            Err(f) => i <= f.at <= b.len(),
        },
{
    lemma_string_at(b, i, Lack::Property);
    if let Ok(key) = string_at(b, i, Lack::Property) {
        lemma_skip_space(b, key.end);
        lemma_string_at(b, skip_space(b, key.end), Lack::Value);
    }
}

/// The properties of a block lie in the text, before the block's end.
pub proof fn lemma_properties_from(b: Seq<u8>, i: int)
    requires
        0 <= i <= b.len(),
    ensures
        match properties_from(b, i) {
            Ok((ps, end)) => i < end <= b.len(),
            Err(f) => i <= f.at <= b.len(),
        },
    decreases b.len() - i,
{
    lemma_skip_space(b, i);
    let j = skip_space(b, i);
    if !(j < b.len() && b[j] == 0x7d) {
        lemma_property_at(b, j);
        if let Ok(p) = property_at(b, j) {
            lemma_properties_from(b, p.value.end);
        }
    }
}

/// A fault of a text lies in the text.
pub proof fn lemma_blocks_from(b: Seq<u8>, i: int)
    requires
        0 <= i <= b.len(),
    ensures
        blocks_from(b, i) is Err ==> i <= blocks_from(b, i)->Err_0.at <= b.len(),
    decreases b.len() - i,
{
    lemma_skip_space(b, i);
    let j = skip_space(b, i);
    if j < b.len() && b[j] == 0x7b {
        lemma_properties_from(b, j + 1);
        if let Ok((ps, end)) = properties_from(b, j + 1) {
            lemma_blocks_from(b, end);
        }
    }
}

/// The byte is a blank, a tab, the end of a line or a zero.
pub open spec fn is_gap(c: u8) -> bool {
    c == 0x20 || c == 0x09 || c == 0x0d || c == 0x0a || c == 0
}

/// There is nothing but white space from `i` to `j`.
pub open spec fn only_gap(b: Seq<u8>, i: int, j: int) -> bool {
    i <= j && forall|k: int| i <= k < j ==> is_gap(#[trigger] b[k])
}

/// White space is skipped, all of it and nothing else.
pub proof fn white_space_is_skipped(b: Seq<u8>, i: int)
    requires
        0 <= i <= b.len(),
    ensures
        only_gap(b, i, skip_space(b, i)),
        skip_space(b, i) <= b.len(),
        skip_space(b, i) < b.len() ==> !is_gap(b[skip_space(b, i)]),
    decreases b.len() - i,
{
    if i < b.len() && is_space(b[i]) {
        white_space_is_skipped(b, i + 1);
    }
}

/// No quote stands before the one that is found.
proof fn lemma_no_quote_before(b: Seq<u8>, i: int)
    requires
        0 <= i <= b.len(),
    ensures
        forall|k: int| i <= k < find_quote(b, i) ==> #[trigger] b[k] != 0x22,
    decreases b.len() - i,
{
    if i < b.len() && b[i] != 0x22 {
        lemma_no_quote_before(b, i + 1);
    }
}

/// A run of bytes without quotes holds such bytes alone.
proof fn lemma_bare_run(b: Seq<u8>, i: int)
    requires
        0 <= i <= b.len(),
    ensures
        forall|k: int| i <= k < skip_bare(b, i) ==> is_bare(#[trigger] b[k]),
    decreases b.len() - i,
{
    if i < b.len() && is_bare(b[i]) {
        lemma_bare_run(b, i + 1);
    }
}

/// A string that starts with a quote ends with the next one, and there is a fault if and
/// only if there is none. Another string goes on up to white space, a quote or a brace,
/// and it cannot start with one of these.
pub proof fn strings_end_where_they_must(b: Seq<u8>, i: int, lack: Lack)
    requires
        0 <= i <= b.len(),
    ensures
        i == b.len() ==> string_at(b, i, lack) == Err::<StringSpan, Fault>(Fault { lack, at: i }),
        i < b.len() && b[i] == 0x22 ==> match string_at(b, i, lack) {
            Ok(s) => {
                &&& s.start == i
                &&& i + 1 < s.end <= b.len()
                &&& b[s.end - 1] == 0x22
                &&& forall|k: int| i < k < s.end - 1 ==> #[trigger] b[k] != 0x22
            },
            Err(f) => {
                &&& f == (Fault { lack: Lack::Quote, at: i })
                &&& forall|k: int| i < k < b.len() ==> #[trigger] b[k] != 0x22
            },
        },
        i < b.len() && (is_gap(b[i]) || b[i] == 0x7b || b[i] == 0x7d) ==> string_at(b, i, lack)
            == Err::<StringSpan, Fault>(Fault { lack, at: i }),
        i < b.len() && !is_gap(b[i]) && b[i] != 0x22 && b[i] != 0x7b && b[i] != 0x7d ==> (
        string_at(b, i, lack) matches Ok(s) && {
            &&& s.start == i
            &&& i < s.end <= b.len()
            &&& forall|k: int|
                i <= k < s.end ==> !is_gap(#[trigger] b[k]) && b[k] != 0x22 && b[k] != 0x7b && b[k]
                    != 0x7d
            &&& s.end < b.len() ==> is_gap(b[s.end]) || b[s.end] == 0x22 || b[s.end] == 0x7b
                || b[s.end] == 0x7d
        }),
{
    if i < b.len() {
        if b[i] == 0x22 {
            lemma_find_quote(b, i + 1);
            lemma_no_quote_before(b, i + 1);
        } else if is_bare(b[i]) {
            lemma_skip_bare(b, i);
            lemma_skip_bare(b, i + 1);
            lemma_bare_run(b, i);
        }
    }
}

/// A string starts at the place where it is said to.
pub open spec fn is_string(b: Seq<u8>, s: StringSpan) -> bool {
    string_at(b, s.start, Lack::Value) == Ok::<StringSpan, Fault>(s)
}

/// The properties `ps` stand from `i` on, with white space alone around and between keys
/// and values, up to a closing brace that stands before `end`.
pub open spec fn are_properties(b: Seq<u8>, i: int, ps: Seq<PropertySpan>, end: int) -> bool
    decreases ps.len(),
{
    if ps.len() == 0 {
        only_gap(b, i, end - 1) && end <= b.len() && b[end - 1] == 0x7d
    } else {
        let p = ps[0];
        &&& only_gap(b, i, p.key.start)
        &&& is_string(b, p.key)
        &&& only_gap(b, p.key.end, p.value.start)
        &&& is_string(b, p.value)
        &&& are_properties(b, p.value.end, ps.drop_first(), end)
    }
}

/// The properties that are found are there: a key and a value each, one behind the other,
/// with nothing but white space besides, and the brace behind them.
pub proof fn properties_stand_in_a_row(b: Seq<u8>, i: int)
    requires
        0 <= i <= b.len(),
    ensures
        properties_from(b, i) matches Ok((ps, end)) ==> i < end <= b.len() && are_properties(
            b,
            i,
            ps,
            end,
        ),
    decreases b.len() - i,
{
    lemma_properties_from(b, i);
    white_space_is_skipped(b, i);
    let j = skip_space(b, i);
    if !(j < b.len() && b[j] == 0x7d) {
        lemma_property_at(b, j);
        if let Ok(p) = property_at(b, j) {
            white_space_is_skipped(b, p.key.end);
            properties_stand_in_a_row(b, p.value.end);
            if let Ok((rest, end)) = properties_from(b, p.value.end) {
                let ps = seq![p] + rest;
                assert(ps.drop_first() =~= rest);
                assert(are_properties(b, i, ps, end));
            }
        }
    }
}

/// The blocks `spans` stand from `i` on, with white space alone around and between them,
/// up to the end of the text.
pub open spec fn are_blocks(b: Seq<u8>, i: int, spans: Seq<BlockSpan>) -> bool
    decreases spans.len(),
{
    if spans.len() == 0 {
        only_gap(b, i, b.len() as int)
    } else {
        let s = spans[0];
        &&& only_gap(b, i, s.start)
        &&& 0 <= s.start < b.len()
        &&& b[s.start] == 0x7b
        &&& s.start + 1 < s.end <= b.len()
        &&& are_properties(b, s.start + 1, s.properties, s.end)
        &&& are_blocks(b, s.end, spans.drop_first())
    }
}

/// The blocks that are found are there, one behind the other, each in braces, with nothing
/// but white space besides up to the end of the text.
pub proof fn blocks_stand_in_a_row(b: Seq<u8>, i: int)
    requires
        0 <= i <= b.len(),
    ensures
        blocks_from(b, i) matches Ok(spans) ==> are_blocks(b, i, spans),
    decreases b.len() - i,
{
    white_space_is_skipped(b, i);
    let j = skip_space(b, i);
    if j < b.len() && b[j] == 0x7b {
        properties_stand_in_a_row(b, j + 1);
        if let Ok((properties, end)) = properties_from(b, j + 1) {
            blocks_stand_in_a_row(b, end);
            if let Ok(rest) = blocks_from(b, end) {
                let spans = seq![BlockSpan { start: j, end, properties }] + rest;
                assert(spans.drop_first() =~= rest);
                assert(are_blocks(b, i, spans));
            }
        }
    }
}

/// Where the text of a block goes wrong, the fault is at the first place that is not white
/// space: something there is neither a block nor the end of the text.
pub proof fn only_blocks_stand_in_a_text(b: Seq<u8>, i: int)
    requires
        0 <= i <= b.len(),
    ensures
        ({
            let j = skip_space(b, i);
            &&& j == b.len() ==> blocks_from(b, i) == Ok::<Seq<BlockSpan>, Fault>(Seq::empty())
            &&& j < b.len() && b[j] != 0x7b ==> blocks_from(b, i) == Err::<Seq<BlockSpan>, Fault>(
                Fault { lack: Lack::Block, at: j },
            )
        }),
{
    white_space_is_skipped(b, i);
}

/// White space before something else is skipped up to that.
proof fn lemma_gap_is_skipped(b: Seq<u8>, i: int, j: int)
    requires
        0 <= i <= j <= b.len(),
        only_gap(b, i, j),
        j < b.len() ==> !is_gap(b[j]),
    ensures
        skip_space(b, i) == j,
    decreases j - i,
{
    if i < j {
        assert(is_gap(b[i]));
        lemma_gap_is_skipped(b, i + 1, j);
    }
}

/// A string is found wherever one stands, whatever is asked for, and it starts with what
/// is neither white space nor a brace.
proof fn lemma_string_is_found(b: Seq<u8>, s: StringSpan, lack: Lack)
    requires
        0 <= s.start,
        is_string(b, s),
    ensures
        string_at(b, s.start, lack) == Ok::<StringSpan, Fault>(s),
        s.start < s.end <= b.len(),
        !is_gap(b[s.start]),
        b[s.start] != 0x7d,
{
    if s.start < b.len() {
        lemma_string_at(b, s.start, Lack::Value);
    }
}

/// Properties that stand in a row up to a closing brace are found, all of them and no
/// others.
pub proof fn properties_in_a_row_are_found(b: Seq<u8>, i: int, ps: Seq<PropertySpan>, end: int)
    requires
        0 <= i <= b.len(),
        are_properties(b, i, ps, end),
    ensures
        properties_from(b, i) == Ok::<(Seq<PropertySpan>, int), Fault>((ps, end)),
    decreases ps.len(),
{
    if ps.len() == 0 {
        lemma_gap_is_skipped(b, i, end - 1);
        assert(ps =~= Seq::empty());
    } else {
        let p = ps[0];
        lemma_string_is_found(b, p.key, Lack::Property);
        lemma_gap_is_skipped(b, i, p.key.start);
        lemma_string_is_found(b, p.value, Lack::Value);
        lemma_gap_is_skipped(b, p.key.end, p.value.start);
        assert(property_at(b, p.key.start) == Ok::<PropertySpan, Fault>(p));
        properties_in_a_row_are_found(b, p.value.end, ps.drop_first(), end);
        assert(seq![p] + ps.drop_first() =~= ps);
    }
}

/// Blocks that stand in a row up to the end of the text are found, all of them and no
/// others.
pub proof fn blocks_in_a_row_are_found(b: Seq<u8>, i: int, spans: Seq<BlockSpan>)
    requires
        0 <= i <= b.len(),
        are_blocks(b, i, spans),
    ensures
        blocks_from(b, i) == Ok::<Seq<BlockSpan>, Fault>(spans),
    decreases spans.len(),
{
    if spans.len() == 0 {
        lemma_gap_is_skipped(b, i, b.len() as int);
        assert(spans =~= Seq::empty());
    } else {
        let s = spans[0];
        lemma_gap_is_skipped(b, i, s.start);
        properties_in_a_row_are_found(b, s.start + 1, s.properties, s.end);
        blocks_in_a_row_are_found(b, s.end, spans.drop_first());
        assert(s == BlockSpan { start: s.start, end: s.end, properties: s.properties });
        assert(seq![s] + spans.drop_first() =~= spans);
    }
}

/// What is wrong with properties is what is wrong with the first string among them that is
/// not there, be it a key or a value; and what is wrong with blocks is what is wrong with
/// the first of them that has a fault.
pub proof fn first_fault_counts(b: Seq<u8>, i: int)
    requires
        0 <= i <= b.len(),
    ensures
        ({
            let j = skip_space(b, i);
            let ps = properties_from(b, i);
            &&& j == b.len() ==> ps == Err::<(Seq<PropertySpan>, int), Fault>(
                Fault { lack: Lack::Property, at: j },
            )
            &&& j < b.len() && b[j] != 0x7d ==> match string_at(b, j, Lack::Property) {
                Err(f) => ps is Err && ps->Err_0 == f,
                Ok(key) => match string_at(b, skip_space(b, key.end), Lack::Value) {
                    Err(f) => ps is Err && ps->Err_0 == f,
                    Ok(value) => {
                        let rest = properties_from(b, value.end);
                        &&& ps is Err <==> rest is Err
                        &&& ps is Err ==> ps->Err_0 == rest->Err_0
                    },
                },
            }
            &&& j < b.len() && b[j] == 0x7b ==> match properties_from(b, j + 1) {
                Err(f) => blocks_from(b, i) is Err && blocks_from(b, i)->Err_0 == f,
                Ok((_, end)) => {
                    &&& blocks_from(b, i) is Err <==> blocks_from(b, end) is Err
                    &&& blocks_from(b, i) is Err ==> blocks_from(b, i)->Err_0 == blocks_from(
                        b,
                        end,
                    )->Err_0
                },
            }
        }),
{
    white_space_is_skipped(b, i);
    let j = skip_space(b, i);
    if j == b.len() || b[j] != 0x7d {
        lemma_property_at(b, j);
        if let Ok(key) = string_at(b, j, Lack::Property) {
            lemma_string_at(b, j, Lack::Property);
            lemma_skip_space(b, key.end);
            if let Ok(value) = string_at(b, skip_space(b, key.end), Lack::Value) {
                assert(property_at(b, j) == Ok::<PropertySpan, Fault>(PropertySpan { key, value }));
                if let Ok((rest, end)) = properties_from(b, value.end) {
                    assert(properties_from(b, i) is Ok);
                }
            }
        }
    }
    if j < b.len() && b[j] == 0x7b {
        lemma_properties_from(b, j + 1);
    }
}

/// What is said of a fault ends with its place, in decimal, and no two faults are said to
/// be the same.
pub proof fn faults_are_told_apart(f: Fault, g: Fault)
    requires
        0 <= f.at,
        0 <= g.at,
    ensures
        ({
            let (said, place) = (fault_text(f), text::decimal(f.at as nat));
            &&& said.len() > place.len()
            &&& said.subrange(said.len() - place.len(), said.len() as int) == place
            &&& said[said.len() - place.len() - 1] == ' '
        }),
        fault_text(f) == fault_text(g) ==> f == g,
{
    reveal_strlit("expected a block");
    reveal_strlit("expected a property or the end of the block");
    reveal_strlit("expected a value");
    reveal_strlit("unclosed string");
    reveal_strlit(" at byte ");
    let (s, t) = (fault_text(f), fault_text(g));
    let (p, q) = (text::decimal(f.at as nat), text::decimal(g.at as nat));
    text::decimal_reads_back(f.at as nat);
    text::decimal_reads_back(g.at as nat);
    assert(s.subrange(s.len() - p.len(), s.len() as int) =~= p);
    assert(t.subrange(t.len() - q.len(), t.len() as int) =~= q);
    if s == t {
        assert(s[0] == t[0]);
        assert(s[11] == t[11]);
        assert(s[0] == lack_text(f.lack)[0] && s[11] == lack_text(f.lack)[11]);
        assert(t[0] == lack_text(g.lack)[0] && t[11] == lack_text(g.lack)[11]);
        assert(f.lack == g.lack);
        assert(p =~= q);
    }
}

} // verus!
