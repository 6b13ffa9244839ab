//! Blocks of properties.

use indexmap::IndexMap;
use vstd::prelude::*;
use vstd::string::*;

use crate::valve_kv::parser::{Pair, ParseError, Rule, ValveKvParser};
use crate::valve_kv::parser;
use crate::valve_kv::grammar;
use crate::valve_kv::grammar::{BlockSpan, PropertySpan, StringSpan};
use crate::valve_kv::properties;

verus! {

broadcast use vstd::string::group_string_axioms;

/// A block: the properties of one entity.
#[derive(Debug, PartialEq, Eq)]
pub struct Block<'a> {
    pub properties: IndexMap<&'a str, &'a str>,
}

impl<'a> View for Block<'a> {
    type V = Seq<(Seq<char>, Seq<char>)>;

    open spec fn view(&self) -> Seq<(Seq<char>, Seq<char>)> {
        properties::entries(self.properties)
    }
}

impl<'a> Default for Block<'a> {
    fn default() -> (b: Block<'a>)
        ensures
            b@ == Seq::<(Seq<char>, Seq<char>)>::empty(),
    {
        Block { properties: properties::no_properties() }
    }
}

/// `s` without a double quote at its start and one at its end, where it has
/// both.
pub open spec fn unquoted(s: Seq<char>) -> Seq<char> {
    if s.len() >= 2 && s[0] == '"' && s.last() == '"' {
        s.subrange(1, s.len() - 1)
    } else {
        s
    }
}

/// The key and the value of a property, or what it lacks.
pub open spec fn property_of(pair: Pair) -> Result<(Seq<char>, Seq<char>), Seq<char>> {
    if pair.inner@.len() == 0 {
        Err("Missing key in property"@)
    } else if pair.inner@.len() == 1 {
        Err("Missing value in property"@)
    } else {
        Ok((unquoted(pair.inner@[0].text@), unquoted(pair.inner@[1].text@)))
    }
}

/// The properties among the first `n` pieces.
pub open spec fn properties_of(pairs: Seq<Pair>, n: nat) -> Result<
    Seq<(Seq<char>, Seq<char>)>,
    Seq<char>,
>
    decreases n,
{
    if n == 0 {
        Ok(Seq::empty())
    } else {
        match properties_of(pairs, (n - 1) as nat) {
            Err(e) => Err(e),
            Ok(es) => if pairs[n - 1].rule == Rule::Property {
                match property_of(pairs[n - 1]) {
                    Err(e) => Err(e),
                    Ok((k, v)) => Ok(properties::put(es, k, v)),
                }
            } else {
                Ok(es)
            },
        }
    }
}

/// A property that cannot be read stops the whole block.
proof fn lemma_properties_error(pairs: Seq<Pair>, m: nat, n: nat)
    requires
        m <= n,
        properties_of(pairs, m) is Err,
    ensures
        properties_of(pairs, n) == properties_of(pairs, m),
    decreases n,
{
    if m < n {
        lemma_properties_error(pairs, m, (n - 1) as nat);
    }
}

/// The characters of a string of the text, without its quotes.
pub open spec fn string_value(b: Seq<u8>, s: StringSpan) -> Seq<char> {
    unquoted(vstd::utf8::decode_utf8(b.subrange(s.start, s.end)))
}

/// The first `n` properties of a block.
pub open spec fn block_value(b: Seq<u8>, ps: Seq<PropertySpan>, n: nat) -> Seq<
    (Seq<char>, Seq<char>),
>
    decreases n,
{
    if n == 0 {
        Seq::empty()
    } else {
        let p = ps[n - 1];
        properties::put(
            block_value(b, ps, (n - 1) as nat),
            string_value(b, p.key),
            string_value(b, p.value),
        )
    }
}

/// What a text says: the properties of each of its blocks, or what is wrong with
/// it.
pub open spec fn meaning(b: Seq<u8>) -> Result<Seq<Seq<(Seq<char>, Seq<char>)>>, Seq<char>> {
    match grammar::blocks_from(b, 0) {
        Ok(spans) => Ok(
            spans.map_values(|s: BlockSpan| block_value(b, s.properties, s.properties.len())),
        ),
        Err(f) => Err(grammar::fault_text(f)),
    }
}

/// The pieces of a block that the grammar accepts can all be read.
proof fn lemma_accepted_block(pairs: Seq<Pair>, b: Seq<u8>, ss: Seq<PropertySpan>, n: nat)
    requires
        parser::are_property_pairs(pairs, b, ss),
        n <= pairs.len(),
    ensures
        properties_of(pairs, n) == Ok::<Seq<(Seq<char>, Seq<char>)>, Seq<char>>(
            block_value(b, ss, n),
        ),
    decreases n,
{
    broadcast use vstd::utf8::encode_utf8_decode_utf8;

    if n > 0 {
        lemma_accepted_block(pairs, b, ss, (n - 1) as nat);
        assert(parser::is_property_pair(pairs[n - 1], b, ss[n - 1]));
        let p = pairs[n - 1];
        assert(vstd::utf8::decode_utf8(p.inner@[0].text.spec_bytes()) == p.inner@[0].text@);
        assert(vstd::utf8::decode_utf8(p.inner@[1].text.spec_bytes()) == p.inner@[1].text@);
    }
}

impl<'a> Block<'a> {
    /// The block that a piece of text is.
    pub fn parse_from_pair(pair: Pair<'a>) -> (r: Result<Block<'a>, ParseError>)
        ensures
            match properties_of(pair.inner@, pair.inner@.len()) {
                Ok(es) => r is Ok && r->Ok_0@ == es,
                Err(e) => r is Err && r->Err_0.0@ == e,
            },
    {
        let mut properties = properties::no_properties();
        let n: usize = pair.inner.len();
        let mut i: usize = 0;
        while i < n
            invariant
                i <= n,
                n == pair.inner@.len(),
                properties_of(pair.inner@, i as nat) == Ok::<
                    Seq<(Seq<char>, Seq<char>)>,
                    Seq<char>,
                >(properties::entries(properties)),
            decreases n - i,
        {
            let prop_pair = &pair.inner[i];
            if prop_pair.rule == Rule::Property {
                match Self::parse_property(prop_pair) {
                    Ok((key, value)) => {
                        properties::insert_property(&mut properties, key, value);
                    },
                    Err(e) => {
                        proof {
                            lemma_properties_error(pair.inner@, (i + 1) as nat, n as nat);
                        }
                        return Err(e);
                    },
                }
            }
            i = i + 1;
        }
        Ok(Block { properties })
    }

    /// The key and the value of a property.
    pub fn parse_property(pair: &Pair<'a>) -> (r: Result<(&'a str, &'a str), ParseError>)
        ensures
            match property_of(*pair) {
                Ok((k, v)) => r is Ok && r->Ok_0.0@ == k && r->Ok_0.1@ == v,
                Err(e) => r is Err && r->Err_0.0@ == e,
            },
    {
        if pair.inner.len() == 0 {
            return Err(ParseError("Missing key in property".to_owned()));
        }
        if pair.inner.len() == 1 {
            return Err(ParseError("Missing value in property".to_owned()));
        }
        Ok((Self::extract_string(&pair.inner[0]), Self::extract_string(&pair.inner[1])))
    }

    /// A string without its quotes.
    pub fn extract_string(p: &Pair<'a>) -> (r: &'a str)
        ensures
            r@ == unquoted(p.text@),
    {
        let s = p.text;
        let n: usize = s.unicode_len();
        if n >= 2 && s.get_char(0) == '"' && s.get_char(n - 1) == '"' {
            s.substring_char(1, n - 1)
        } else {
            s
        }
    }

    /// The value of the property `key`.
    pub fn get(&self, key: &str) -> (r: Option<&'a str>)
        ensures
            match properties::lookup(self@, key@) {
                Some(v) => r is Some && r->0@ == v,
                None => r is None,
            },
    {
        properties::get_property(&self.properties, key)
    }
}

/// The blocks of a text.
pub fn parse<'a>(input: &'a str) -> (r: Result<Vec<Block<'a>>, ParseError>)
    ensures
        match meaning(input.spec_bytes()) {
            Ok(bs) => {
                &&& r is Ok
                &&& r->Ok_0@.len() == bs.len()
                &&& forall|i: int| 0 <= i < bs.len() ==> (#[trigger] r->Ok_0@[i])@ == bs[i]
            },
            Err(e) => r is Err && r->Err_0.0@ == e,
        },
{
    let ghost b = input.spec_bytes();
    let pairs = match ValveKvParser::parse(input) {
        Ok(pairs) => pairs,
        Err(e) => {
            return Err(e);
        },
    };
    let ghost spans = grammar::blocks_from(b, 0)->Ok_0;
    let ghost bs = meaning(b)->Ok_0;
    let mut blocks: Vec<Block<'a>> = Vec::new();
    for pair in it: pairs
        invariant
            it.seq() == pairs@,
            parser::are_block_pairs(pairs@, b, spans),
            meaning(b) == Ok::<Seq<Seq<(Seq<char>, Seq<char>)>>, Seq<char>>(bs),
            grammar::blocks_from(b, 0) == Ok::<Seq<BlockSpan>, grammar::Fault>(spans),
            blocks@.len() == if it.index() <= spans.len() {
                it.index() as nat
            } else {
                spans.len()
            },
            forall|i: int| 0 <= i < blocks@.len() ==> (#[trigger] blocks@[i])@ == bs[i],
    {
        let ghost at = it.index() as int;
        proof {
            if at < spans.len() {
                assert(parser::is_block_pair(pairs@[at], b, spans[at]));
                lemma_accepted_block(
                    pairs@[at].inner@,
                    b,
                    spans[at].properties,
                    spans[at].properties.len(),
                );
            }
        }
        if pair.rule == Rule::Block {
            match Block::parse_from_pair(pair) {
                Ok(block) => {
                    blocks.push(block);
                },
                Err(e) => {
                    return Err(e);
                },
            }
        }
    }
    Ok(blocks)
}

/// Quotes around a string are taken off, one at each end, and else a string stays as it
/// is.
pub proof fn one_pair_of_quotes_is_taken_off(s: Seq<char>)
    ensures
        unquoted(seq!['"'] + s + seq!['"']) == s,
        s.len() < 2 || s[0] != '"' || s.last() != '"' ==> unquoted(s) == s,
{
    let q = seq!['"'] + s + seq!['"'];
    assert(q.subrange(1, q.len() - 1) =~= s);
}

/// What a text says is said by its blocks, in their order, and by the properties of each;
/// a text whose blocks are not well formed says nothing.
pub proof fn texts_say_what_their_blocks_say(b: Seq<u8>, i: int)
    ensures
        meaning(b) is Ok <==> grammar::blocks_from(b, 0) is Ok,
        meaning(b) is Ok ==> meaning(b)->Ok_0.len() == grammar::blocks_from(b, 0)->Ok_0.len(),
        meaning(b) is Ok && 0 <= i < meaning(b)->Ok_0.len() ==> {
            let ps = grammar::blocks_from(b, 0)->Ok_0[i].properties;
            meaning(b)->Ok_0[i] == block_value(b, ps, ps.len())
        },
{
}

/// A text says something if and only if nothing but blocks stands in it, and else what is
/// said of it is its fault.
pub proof fn texts_with_faults_say_nothing(b: Seq<u8>, spans: Seq<BlockSpan>)
    ensures
        grammar::are_blocks(b, 0, spans) ==> meaning(b) is Ok && meaning(b)->Ok_0.len()
            == spans.len(),
        meaning(b) is Ok ==> grammar::are_blocks(b, 0, grammar::blocks_from(b, 0)->Ok_0),
        meaning(b) matches Err(said) ==> grammar::blocks_from(b, 0) is Err && said
            == grammar::fault_text(grammar::blocks_from(b, 0)->Err_0),
{
    if grammar::are_blocks(b, 0, spans) {
        grammar::blocks_in_a_row_are_found(b, 0, spans);
    }
    grammar::blocks_stand_in_a_row(b, 0);
}

} // verus!
