//! The parser of entity text.

use vstd::prelude::*;
use vstd::string::*;
use vstd::utf8::*;

use crate::text;
use crate::valve_kv::grammar;
use crate::valve_kv::grammar::{BlockSpan, Fault, Lack, PropertySpan, StringSpan};

verus! {

broadcast use {vstd::string::group_string_axioms, vstd::utf8::encode_utf8_valid_utf8};

/// Why a text could not be parsed.
#[derive(Debug)]
pub struct ParseError(pub String);

impl ParseError {
    /// The error as a message to the user.
    pub fn message(&self) -> (r: String)
        ensures
            r@ == "Parse Error: "@ + self.0@,
    {
        let mut out = "Parse Error: ".to_owned();
        out.append(self.0.as_str());
        out
    }
}

/// The rule of the grammar that a piece of text matches.
#[derive(Debug, Clone, Copy, PartialEq, Eq, Structural)]
pub enum Rule {
    Block,
    Property,
    Text,
    EndOfInput,
}

/// A piece of the input that matches a rule, and the pieces in it.
pub struct Pair<'a> {
    pub rule: Rule,
    pub text: &'a str,
    pub inner: Vec<Pair<'a>>,
}

/// `p` is the string at `s`.
pub open spec fn is_string_pair(p: Pair, b: Seq<u8>, s: StringSpan) -> bool {
    &&& p.rule == Rule::Text
    &&& p.text.spec_bytes() == b.subrange(s.start, s.end)
    &&& p.inner@.len() == 0
}

/// `p` is the property at `s`.
pub open spec fn is_property_pair(p: Pair, b: Seq<u8>, s: PropertySpan) -> bool {
    &&& p.rule == Rule::Property
    &&& p.text.spec_bytes() == b.subrange(s.key.start, s.value.end)
    &&& p.inner@.len() == 2
    &&& is_string_pair(p.inner@[0], b, s.key)
    &&& is_string_pair(p.inner@[1], b, s.value)
}

/// `ps` are the properties at `ss`.
pub open spec fn are_property_pairs(ps: Seq<Pair>, b: Seq<u8>, ss: Seq<PropertySpan>) -> bool {
    &&& ps.len() == ss.len()
    &&& forall|i: int| 0 <= i < ps.len() ==> is_property_pair(#[trigger] ps[i], b, ss[i])
}

/// `p` is the block at `s`.
pub open spec fn is_block_pair(p: Pair, b: Seq<u8>, s: BlockSpan) -> bool {
    &&& p.rule == Rule::Block
    &&& p.text.spec_bytes() == b.subrange(s.start, s.end)
    &&& are_property_pairs(p.inner@, b, s.properties)
}

/// `ps` are the blocks at `ss` and the end of the input.
pub open spec fn are_block_pairs(ps: Seq<Pair>, b: Seq<u8>, ss: Seq<BlockSpan>) -> bool {
    &&& ps.len() == ss.len() + 1
    &&& forall|i: int| 0 <= i < ss.len() ==> is_block_pair(#[trigger] ps[i], b, ss[i])
    &&& ps.last().rule == Rule::EndOfInput
}

/// A fault, found while parsing.
struct FaultAt {
    lack: Lack,
    at: usize,
}

impl FaultAt {
    spec fn is(self, f: Fault) -> bool {
        self.lack == f.lack && self.at == f.at
    }

    /// The fault as an error.
    fn to_error(&self, Ghost(f): Ghost<Fault>) -> (e: ParseError)
        requires
            self.is(f),
        ensures
            e.0@ == grammar::fault_text(f),
    {
        let said = match self.lack {
            Lack::Block => "expected a block",
            Lack::Property => "expected a property or the end of the block",
            Lack::Value => "expected a value",
            Lack::Quote => "unclosed string",
        };
        let mut out = said.to_owned();
        out.append(" at byte ");
        text::push_decimal(&mut out, self.at as u64);
        ParseError(out)
    }
}

/// Behind a byte below 128 that starts a character, the next one starts.
proof fn lemma_boundary_after_ascii(b: Seq<u8>, i: int)
    requires
        valid_utf8(b),
        is_char_boundary(b, i),
        0 <= i < b.len(),
        b[i] < 0x80,
    ensures
        is_char_boundary(b, i + 1),
    decreases b.len(),
{
    if i == 0 {
        reveal_with_fuel(is_char_boundary, 2);
    } else {
        reveal_with_fuel(is_char_boundary, 2);
        let n = length_of_first_scalar(b);
        assert(i >= n);
        lemma_boundary_after_ascii(pop_first_scalar(b), i - n);
    }
}

/// A byte below 128 starts a character, and so does what is behind it.
proof fn lemma_ascii_boundaries(b: Seq<u8>, i: int)
    requires
        valid_utf8(b),
        0 <= i < b.len(),
        b[i] < 0x80,
    ensures
        is_char_boundary(b, i),
        is_char_boundary(b, i + 1),
{
    is_char_boundary_iff_is_leading_byte(b, i);
    assert(is_leading_byte_width_1(b[i]));
    lemma_boundary_after_ascii(b, i);
}

/// The piece of `input` from byte `start` to byte `end`.
fn piece<'a>(input: &'a str, start: usize, end: usize) -> (r: &'a str)
    requires
        start <= end <= input.spec_bytes().len(),
        is_char_boundary(input.spec_bytes(), start as int),
        is_char_boundary(input.spec_bytes(), end as int),
    ensures
        r.spec_bytes() == input.spec_bytes().subrange(start as int, end as int),
{
    let ghost b = input.spec_bytes();
    let front = input.split_at(end).0;
    proof {
        lemma_boundary_of_front(b, start as int, end as int);
    }
    let r = front.split_at(start).1;
    assert(r.spec_bytes() =~= b.subrange(start as int, end as int));
    r
}

/// A boundary stays one when the text is cut behind it.
proof fn lemma_boundary_of_front(b: Seq<u8>, i: int, end: int)
    requires
        valid_utf8(b),
        is_char_boundary(b, i),
        is_char_boundary(b, end),
        0 <= i <= end <= b.len(),
    ensures
        valid_utf8(b.subrange(0, end)),
        is_char_boundary(b.subrange(0, end), i),
{
    valid_utf8_split(b, end);
    let front = b.subrange(0, end);
    if i == end {
        is_char_boundary_start_end_of_seq(front);
    } else {
        is_char_boundary_iff_not_is_continuation_byte(b, i);
        is_char_boundary_iff_not_is_continuation_byte(front, i);
        assert(front[i] == b[i]);
    }
}

/// Whether a byte is white space.
fn space(c: u8) -> (r: bool)
    ensures
        r == grammar::is_space(c),
{
    c == 0x20 || c == 0x09 || c == 0x0d || c == 0x0a || c == 0
}

/// The first position from `start` on without white space.
fn after_space(input: &str, start: usize) -> (r: usize)
    requires
        start <= input.spec_bytes().len(),
        is_char_boundary(input.spec_bytes(), start as int),
    ensures
        r == grammar::skip_space(input.spec_bytes(), start as int),
        start <= r <= input.spec_bytes().len(),
        is_char_boundary(input.spec_bytes(), r as int),
{
    let bytes = input.as_bytes();
    let mut i: usize = start;
    while i < bytes.len() && space(bytes[i])
        invariant
            bytes@ == input.spec_bytes(),
            start <= i <= bytes@.len(),
            is_char_boundary(bytes@, i as int),
            grammar::skip_space(bytes@, i as int) == grammar::skip_space(bytes@, start as int),
        decreases bytes@.len() - i,
    {
        proof {
            lemma_boundary_after_ascii(bytes@, i as int);
        }
        i = i + 1;
    }
    i
}

/// The string that starts at `start`.
fn string_from<'a>(input: &'a str, start: usize, lack: Lack) -> (r: Result<
    (Pair<'a>, usize),
    FaultAt,
>)
    requires
        start <= input.spec_bytes().len(),
        is_char_boundary(input.spec_bytes(), start as int),
    ensures
        match grammar::string_at(input.spec_bytes(), start as int, lack) {
            Ok(s) => {
                &&& r is Ok
                &&& is_string_pair(r->Ok_0.0, input.spec_bytes(), s)
                &&& r->Ok_0.1 == s.end
                &&& is_char_boundary(input.spec_bytes(), s.end)
            },
            Err(f) => r is Err && r->Err_0.is(f),
        },
{
    let bytes = input.as_bytes();
    let n: usize = bytes.len();
    if start >= n {
        return Err(FaultAt { lack, at: start });
    }
    let first: u8 = bytes[start];
    if first == 0x22 {
        let mut i: usize = start + 1;
        while i < n && bytes[i] != 0x22
            invariant
                bytes@ == input.spec_bytes(),
                n == bytes@.len(),
                start < i <= n,
                grammar::find_quote(bytes@, i as int) == grammar::find_quote(bytes@, start + 1),
            decreases n - i,
        {
            i = i + 1;
        }
        if i < n {
            proof {
                lemma_ascii_boundaries(bytes@, i as int);
            }
            let pair = Pair { rule: Rule::Text, text: piece(input, start, i + 1), inner: Vec::new() };
            Ok((pair, i + 1))
        } else {
            Err(FaultAt { lack: Lack::Quote, at: start })
        }
    } else if !space(first) && first != 0x7b && first != 0x7d {
        let mut i: usize = start;
        while i < n && !space(bytes[i]) && bytes[i] != 0x22 && bytes[i] != 0x7b && bytes[i] != 0x7d
            invariant
                bytes@ == input.spec_bytes(),
                n == bytes@.len(),
                start <= i <= n,
                grammar::skip_bare(bytes@, i as int) == grammar::skip_bare(bytes@, start as int),
            decreases n - i,
        {
            i = i + 1;
        }
        proof {
            if i < n {
                lemma_ascii_boundaries(bytes@, i as int);
            } else {
                is_char_boundary_start_end_of_seq(bytes@);
            }
        }
        let pair = Pair { rule: Rule::Text, text: piece(input, start, i), inner: Vec::new() };
        Ok((pair, i))
    } else {
        Err(FaultAt { lack, at: start })
    }
}

/// The property that starts at `start`.
fn property_from<'a>(input: &'a str, start: usize) -> (r: Result<(Pair<'a>, usize), FaultAt>)
    requires
        start <= input.spec_bytes().len(),
        is_char_boundary(input.spec_bytes(), start as int),
    ensures
        match grammar::property_at(input.spec_bytes(), start as int) {
            Ok(s) => {
                &&& r is Ok
                &&& is_property_pair(r->Ok_0.0, input.spec_bytes(), s)
                &&& r->Ok_0.1 == s.value.end
                &&& is_char_boundary(input.spec_bytes(), s.value.end)
            },
            Err(f) => r is Err && r->Err_0.is(f),
        },
{
    proof {
        grammar::lemma_string_at(input.spec_bytes(), start as int, Lack::Property);
    }
    let (key, key_end) = match string_from(input, start, Lack::Property) {
        Ok(p) => p,
        Err(f) => {
            return Err(f);
        },
    };
    let at: usize = after_space(input, key_end);
    proof {
        grammar::lemma_string_at(input.spec_bytes(), at as int, Lack::Value);
    }
    let (value, end) = match string_from(input, at, Lack::Value) {
        Ok(p) => p,
        Err(f) => {
            return Err(f);
        },
    };
    let mut inner: Vec<Pair<'a>> = Vec::new();
    inner.push(key);
    inner.push(value);
    Ok((Pair { rule: Rule::Property, text: piece(input, start, end), inner }, end))
}

/// The block whose opening brace is at `start`.
fn block_from<'a>(input: &'a str, start: usize) -> (r: Result<(Pair<'a>, usize), FaultAt>)
    requires
        start < input.spec_bytes().len(),
        input.spec_bytes()[start as int] == 0x7b,
        is_char_boundary(input.spec_bytes(), start as int),
    ensures
        match grammar::properties_from(input.spec_bytes(), start + 1) {
            Ok((properties, end)) => {
                &&& r is Ok
                &&& is_block_pair(
                    r->Ok_0.0,
                    input.spec_bytes(),
                    BlockSpan { start: start as int, end, properties },
                )
                &&& r->Ok_0.1 == end
                &&& is_char_boundary(input.spec_bytes(), end)
            },
            Err(f) => r is Err && r->Err_0.is(f),
        },
{
    let ghost b = input.spec_bytes();
    let ghost whole = grammar::properties_from(b, start + 1);
    let bytes = input.as_bytes();
    let n: usize = bytes.len();
    proof {
        lemma_boundary_after_ascii(b, start as int);
    }
    let mut at: usize = after_space(input, start + 1);
    let mut from: usize = start + 1;
    let mut inner: Vec<Pair<'a>> = Vec::new();
    let ghost mut done: Seq<PropertySpan> = Seq::empty();
    while !(at < n && bytes[at] == 0x7d)
        invariant
            n == b.len(),
            b == input.spec_bytes(),
            bytes@ == b,
            start < from <= at <= b.len(),
            at == grammar::skip_space(b, from as int),
            is_char_boundary(b, at as int),
            whole == grammar::properties_from(b, start + 1),
            are_property_pairs(inner@, b, done),
            match grammar::properties_from(b, from as int) {
                Ok((rest, end)) => whole == Ok::<(Seq<PropertySpan>, int), Fault>((done + rest, end)),
                Err(f) => whole == Err::<(Seq<PropertySpan>, int), Fault>(f),
            },
        decreases b.len() - from,
    {
        let (p, end) = match property_from(input, at) {
            Ok(p) => p,
            Err(f) => {
                return Err(f);
            },
        };
        let ghost span = grammar::property_at(b, at as int)->Ok_0;
        proof {
            grammar::lemma_property_at(b, at as int);
            if let Ok((rest, e)) = grammar::properties_from(b, end as int) {
                assert(done + (seq![span] + rest) =~= done.push(span) + rest);
            }
            done = done.push(span);
        }
        inner.push(p);
        from = end;
        at = after_space(input, from);
    }
    proof {
        lemma_boundary_after_ascii(b, at as int);
        assert(done + Seq::<PropertySpan>::empty() =~= done);
    }
    Ok((Pair { rule: Rule::Block, text: piece(input, start, at + 1), inner }, at + 1))
}

/// The parser of entity text.
pub struct ValveKvParser;

impl ValveKvParser {
    /// The blocks of the text and, behind them, its end.
    pub fn parse<'a>(input: &'a str) -> (r: Result<Vec<Pair<'a>>, ParseError>)
        ensures
            match grammar::blocks_from(input.spec_bytes(), 0) {
                Ok(spans) => r is Ok && are_block_pairs(r->Ok_0@, input.spec_bytes(), spans),
                Err(f) => r is Err && r->Err_0.0@ == grammar::fault_text(f),
            },
    {
        let ghost b = input.spec_bytes();
        let ghost whole = grammar::blocks_from(b, 0);
        let bytes = input.as_bytes();
        proof {
            is_char_boundary_start_end_of_seq(b);
        }
        let mut from: usize = 0;
        let mut at: usize = after_space(input, 0);
        let mut pairs: Vec<Pair<'a>> = Vec::new();
        let ghost mut done: Seq<BlockSpan> = Seq::empty();
        assert(whole is Ok ==> done + whole->Ok_0 =~= whole->Ok_0);
        while at < bytes.len()
            invariant
                b == input.spec_bytes(),
                bytes@ == b,
                from <= at <= b.len(),
                at == grammar::skip_space(b, from as int),
                is_char_boundary(b, at as int),
                whole == grammar::blocks_from(b, 0),
                pairs@.len() == done.len(),
                forall|i: int|
                    0 <= i < pairs@.len() ==> is_block_pair(#[trigger] pairs@[i], b, done[i]),
                match grammar::blocks_from(b, from as int) {
                    Ok(rest) => whole == Ok::<Seq<BlockSpan>, Fault>(done + rest),
                    Err(f) => whole == Err::<Seq<BlockSpan>, Fault>(f),
                },
            decreases b.len() - from,
        {
            if bytes[at] != 0x7b {
                let fault = FaultAt { lack: Lack::Block, at };
                return Err(fault.to_error(Ghost(whole->Err_0)));
            }
            let (p, end) = match block_from(input, at) {
                Ok(p) => p,
                Err(f) => {
                    return Err(f.to_error(Ghost(whole->Err_0)));
                },
            };
            proof {
                grammar::lemma_properties_from(b, at + 1);
                let (properties, e) = grammar::properties_from(b, at + 1)->Ok_0;
                let span = BlockSpan { start: at as int, end: e, properties };
                if let Ok(rest) = grammar::blocks_from(b, end as int) {
                    assert(done + (seq![span] + rest) =~= done.push(span) + rest);
                }
                done = done.push(span);
            }
            pairs.push(p);
            from = end;
            at = after_space(input, from);
        }
        assert(done + Seq::<BlockSpan>::empty() =~= done);
        pairs.push(Pair { rule: Rule::EndOfInput, text: "", inner: Vec::new() });
        Ok(pairs)
    }
}

/// A property holds two strings: its text begins with the one, which is its key, and ends
/// with the other, its value.
pub proof fn properties_hold_two_strings(p: Pair, b: Seq<u8>, i: int)
    requires
        0 <= i <= b.len(),
        grammar::property_at(b, i) is Ok,
        is_property_pair(p, b, grammar::property_at(b, i)->Ok_0),
    ensures
        p.rule == Rule::Property,
        p.inner@.len() == 2,
        p.inner@[0].rule == Rule::Text && p.inner@[1].rule == Rule::Text,
        p.inner@[0].inner@.len() == 0 && p.inner@[1].inner@.len() == 0,
        ({
            let all = p.text.spec_bytes();
            let key = p.inner@[0].text.spec_bytes();
            let value = p.inner@[1].text.spec_bytes();
            &&& 0 < key.len()
            &&& 0 < value.len()
            &&& key.len() + value.len() <= all.len()
            &&& all.subrange(0, key.len() as int) == key
            &&& all.subrange(all.len() - value.len(), all.len() as int) == value
            &&& i + all.len() <= b.len() && b.subrange(i, i + all.len()) == all
        }),
{
    grammar::lemma_property_at(b, i);
    let s = grammar::property_at(b, i)->Ok_0;
    let all = p.text.spec_bytes();
    let key = p.inner@[0].text.spec_bytes();
    let value = p.inner@[1].text.spec_bytes();
    assert(all.subrange(0, key.len() as int) =~= key);
    assert(all.subrange(all.len() - value.len(), all.len() as int) =~= value);
}

/// The pieces of a text are its blocks, each from brace to brace with its properties in
/// it, and behind them the end of the text.
pub proof fn texts_hold_blocks_and_an_end(ps: Seq<Pair>, b: Seq<u8>, k: int, l: int)
    requires
        grammar::blocks_from(b, 0) is Ok,
        are_block_pairs(ps, b, grammar::blocks_from(b, 0)->Ok_0),
        0 <= k < ps.len(),
    ensures
        ps.len() == grammar::blocks_from(b, 0)->Ok_0.len() + 1,
        ps[k].rule == Rule::EndOfInput <==> k == ps.len() - 1,
        k < ps.len() - 1 ==> {
            let s = grammar::blocks_from(b, 0)->Ok_0[k];
            let all = ps[k].text.spec_bytes();
            &&& ps[k].rule == Rule::Block
            &&& all.len() == s.end - s.start >= 2
            &&& all[0] == 0x7b
            &&& all.last() == 0x7d
            &&& 0 < l < all.len() ==> all[l] == b[s.start + l]
            &&& ps[k].inner@.len() == s.properties.len()
            &&& 0 <= l < s.properties.len() ==> ps[k].inner@[l].rule == Rule::Property
        },
{
    let spans = grammar::blocks_from(b, 0)->Ok_0;
    grammar::blocks_stand_in_a_row(b, 0);
    if k < spans.len() {
        lemma_block_in_braces(b, 0, spans, k);
        assert(is_block_pair(ps[k], b, spans[k]));
    }
}

/// A block among others starts and ends with a brace.
proof fn lemma_block_in_braces(b: Seq<u8>, i: int, spans: Seq<BlockSpan>, k: int)
    requires
        0 <= i <= b.len(),
        grammar::are_blocks(b, i, spans),
        0 <= k < spans.len(),
    ensures
        0 <= spans[k].start,
        spans[k].start + 1 < spans[k].end <= b.len(),
        b[spans[k].start] == 0x7b,
        b[spans[k].end - 1] == 0x7d,
    decreases spans.len(),
{
    if k == 0 {
        lemma_last_brace(b, spans[0].start + 1, spans[0].properties, spans[0].end);
    } else {
        lemma_block_in_braces(b, spans[0].end, spans.drop_first(), k - 1);
    }
}

/// Behind properties there is a brace.
proof fn lemma_last_brace(b: Seq<u8>, i: int, ps: Seq<PropertySpan>, end: int)
    requires
        grammar::are_properties(b, i, ps, end),
    ensures
        b[end - 1] == 0x7d,
    decreases ps.len(),
{
    if ps.len() > 0 {
        lemma_last_brace(b, ps[0].value.end, ps.drop_first(), end);
    }
}

} // verus!
