//! What holds of the text format as a whole.

use vstd::prelude::*;
use vstd::utf8::*;

use crate::valve_kv::block;
use crate::valve_kv::grammar;
use crate::valve_kv::grammar::{BlockSpan, Fault, Lack, PropertySpan, StringSpan};
use crate::valve_kv::properties;

verus! {

/// A string in quotes.
pub open spec fn quoted(s: Seq<char>) -> Seq<char> {
    seq!['"'] + s + seq!['"']
}

/// A property, as a line of text.
pub open spec fn property_text(p: (Seq<char>, Seq<char>)) -> Seq<char> {
    quoted(p.0) + seq![' '] + quoted(p.1) + seq!['\n']
}

/// The properties of an entity from `n` on, and the brace behind them.
pub open spec fn properties_text(e: Seq<(Seq<char>, Seq<char>)>, n: nat) -> Seq<char>
    decreases e.len() - n,
{
    if n >= e.len() {
        seq!['}']
    } else {
        property_text(e[n as int]) + properties_text(e, n + 1)
    }
}

/// The entities from `n` on, as maps hold them.
pub open spec fn entities_text(es: Seq<Seq<(Seq<char>, Seq<char>)>>, n: nat) -> Seq<char>
    decreases es.len() - n,
{
    if n >= es.len() {
        Seq::empty()
    } else {
        seq!['{', '\n'] + properties_text(es[n as int], 0) + seq!['\n'] + entities_text(es, n + 1)
    }
}

/// The properties can be put in quotes, and no key appears twice.
pub open spec fn is_writable(e: Seq<(Seq<char>, Seq<char>)>) -> bool {
    &&& properties::keys_distinct(e)
    &&& forall|i: int|
        0 <= i < e.len() ==> !(#[trigger] e[i]).0.contains('"') && !e[i].1.contains('"')
}

/// The bytes from `i` on start with `x`.
spec fn starts_at(b: Seq<u8>, i: int, x: Seq<u8>) -> bool {
    &&& 0 <= i && i + x.len() <= b.len()
    &&& b.subrange(i, i + x.len()) == x
}

/// The encoding of two texts in a row.
proof fn lemma_encode_concat(x: Seq<char>, y: Seq<char>)
    ensures
        encode_utf8(x + y) == encode_utf8(x) + encode_utf8(y),
    decreases x.len(),
{
    if x.len() == 0 {
        assert(x + y =~= y);
        assert(encode_utf8(x) + encode_utf8(y) =~= encode_utf8(y));
    } else {
        lemma_encode_concat(x.drop_first(), y);
        assert((x + y).drop_first() =~= x.drop_first() + y);
        assert(encode_utf8(x + y) =~= encode_utf8(x) + encode_utf8(y));
    }
}

/// The encoding of a character below 128 is that byte.
proof fn lemma_encode_ascii(c: char)
    requires
        c as u32 <= 0x7f,
    ensures
        encode_utf8(seq![c]) == seq![c as u8],
{
    let s = seq![c];
    let n = c as u32;
    assert(s.drop_first() =~= Seq::<char>::empty());
    assert(n <= 0x7f ==> (n & 0x7f) as u8 == n) by (bit_vector);
    assert(encode_utf8(s.drop_first()) =~= Seq::<u8>::empty());
    assert(encode_utf8(s) =~= seq![c as u8]);
}

/// Only the quote is encoded with the byte of the quote.
proof fn lemma_no_quote(s: Seq<char>)
    requires
        !s.contains('"'),
    ensures
        forall|i: int| 0 <= i < encode_utf8(s).len() ==> #[trigger] encode_utf8(s)[i] != 0x22,
    decreases s.len(),
{
    if s.len() > 0 {
        let rest = s.drop_first();
        assert(!rest.contains('"')) by {
            if rest.contains('"') {
                let i = choose|i: int| 0 <= i < rest.len() && rest[i] == '"';
                assert(s[i + 1] == '"');
            }
        }
        lemma_no_quote(rest);
        let c = s[0] as u32;
        char_is_scalar(s[0]);
        char_u32_cast(s[0], c);
        assert(c != 0x22) by {
            assert(s[0] != '"');
            assert('"' == 0x22u32 as char);
        }
        assert(c <= 0x7f ==> (c & 0x7f) as u8 == c) by (bit_vector);
        assert((0xc0u8 | ((c >> 6) & 0x1f) as u8) != 0x22) by (bit_vector);
        assert((0xe0u8 | ((c >> 12) & 0x0f) as u8) != 0x22) by (bit_vector);
        assert((0xf0u8 | ((c >> 18) & 0x7) as u8) != 0x22) by (bit_vector);
        assert((0x80u8 | (c & 0x3f) as u8) != 0x22) by (bit_vector);
        assert((0x80u8 | ((c >> 6) & 0x3f) as u8) != 0x22) by (bit_vector);
        assert((0x80u8 | ((c >> 12) & 0x3f) as u8) != 0x22) by (bit_vector);
        let first = encode_scalar(c);
        assert(first.len() >= 1 && first[0] != 0x22);
        assert(first.len() >= 2 ==> first[1] != 0x22);
        assert(first.len() >= 3 ==> first[2] != 0x22);
        assert(first.len() >= 4 ==> first[3] != 0x22);
        assert(first.len() <= 4);
        assert forall|i: int| 0 <= i < encode_utf8(s).len() implies #[trigger] encode_utf8(s)[i]
            != 0x22 by {
            if i < first.len() {
                assert(encode_utf8(s)[i] == first[i]);
            } else {
                assert(encode_utf8(s)[i] == encode_utf8(rest)[i - first.len()]);
            }
        }
    }
}

/// The closing quote of a string is found.
proof fn lemma_finds_quote(b: Seq<u8>, i: int, n: int)
    requires
        0 <= i <= n < b.len(),
        forall|k: int| i <= k < n ==> #[trigger] b[k] != 0x22,
        b[n] == 0x22,
    ensures
        grammar::find_quote(b, i) == n,
    decreases n - i,
{
    if i < n {
        lemma_finds_quote(b, i + 1, n);
    }
}

/// A string in quotes is read as it is.
proof fn lemma_reads_string(b: Seq<u8>, i: int, s: Seq<char>, lack: Lack)
    requires
        !s.contains('"'),
        starts_at(b, i, encode_utf8(quoted(s))),
    ensures
        ({
            let span = StringSpan { start: i, end: i + encode_utf8(quoted(s)).len() };
            &&& grammar::string_at(b, i, lack) == Ok::<StringSpan, Fault>(span)
            &&& block::string_value(b, span) == s
            &&& encode_utf8(quoted(s)).len() >= 2
            &&& b[i] == 0x22
        }),
{
    let q = encode_utf8(quoted(s));
    lemma_encode_concat(seq!['"'], s);
    lemma_encode_concat(seq!['"'] + s, seq!['"']);
    lemma_encode_ascii('"');
    lemma_no_quote(s);
    let e = encode_utf8(s);
    assert(q =~= seq![0x22u8] + e + seq![0x22u8]);
    assert forall|k: int| 0 <= k < q.len() implies b[i + k] == #[trigger] q[k] by {
        assert(b.subrange(i, i + q.len())[k] == q[k]);
    }
    assert(b[i + 0] == q[0]);
    assert(b[i + (q.len() - 1)] == q[q.len() - 1]);
    assert forall|k: int| i + 1 <= k < i + 1 + e.len() implies #[trigger] b[k] != 0x22 by {
        assert(b[i + (k - i)] == q[k - i]);
        assert(q[k - i] == e[k - i - 1]);
    }
    lemma_finds_quote(b, i + 1, i + 1 + e.len());
    encode_utf8_decode_utf8(quoted(s));
    assert(quoted(s).subrange(1, quoted(s).len() - 1) =~= s);
}

/// What starts with two texts in a row starts with the first, and goes on with the
/// second.
proof fn lemma_starts_with_both(b: Seq<u8>, i: int, x: Seq<char>, y: Seq<char>)
    requires
        starts_at(b, i, encode_utf8(x + y)),
    ensures
        starts_at(b, i, encode_utf8(x)),
        starts_at(b, i + encode_utf8(x).len(), encode_utf8(y)),
        encode_utf8(x + y).len() == encode_utf8(x).len() + encode_utf8(y).len(),
{
    lemma_encode_concat(x, y);
    let (ex, ey) = (encode_utf8(x), encode_utf8(y));
    let all = b.subrange(i, i + ex.len() + ey.len());
    assert(b.subrange(i, i + ex.len()) =~= ex) by {
        assert forall|k: int| 0 <= k < ex.len() implies b[i + k] == #[trigger] ex[k] by {
            assert(all[k] == (ex + ey)[k]);
        }
    }
    assert(b.subrange(i + ex.len(), i + ex.len() + ey.len()) =~= ey) by {
        assert forall|k: int| 0 <= k < ey.len() implies b[i + ex.len() + k] == #[trigger] ey[k] by {
            assert(all[ex.len() + k] == (ex + ey)[ex.len() + k]);
        }
    }
}

/// One character below 128 that a text starts with.
proof fn lemma_starts_with_ascii(b: Seq<u8>, i: int, c: char)
    requires
        c as u32 <= 0x7f,
        starts_at(b, i, encode_utf8(seq![c])),
    ensures
        b[i] == c as u8,
        encode_utf8(seq![c]).len() == 1,
        i < b.len(),
{
    lemma_encode_ascii(c);
    assert(b.subrange(i, i + 1)[0] == c as u8);
}

/// A property is read as it is.
proof fn lemma_reads_property(b: Seq<u8>, i: int, p: (Seq<char>, Seq<char>))
    requires
        !p.0.contains('"'),
        !p.1.contains('"'),
        starts_at(b, i, encode_utf8(property_text(p))),
    ensures
        grammar::property_at(b, i) matches Ok(span) && {
            &&& span.value.end + 1 == i + encode_utf8(property_text(p)).len()
            &&& b[span.value.end] == 0x0a
            &&& block::string_value(b, span.key) == p.0
            &&& block::string_value(b, span.value) == p.1
        },
        b[i] == 0x22,
{
    let k = quoted(p.0);
    let v = quoted(p.1);
    lemma_starts_with_both(b, i, k + seq![' '] + v, seq!['\n']);
    lemma_starts_with_both(b, i, k + seq![' '], v);
    lemma_starts_with_both(b, i, k, seq![' ']);
    lemma_reads_string(b, i, p.0, Lack::Property);
    let key_end = i + encode_utf8(k).len();
    lemma_starts_with_ascii(b, key_end, ' ');
    lemma_reads_string(b, key_end + 1, p.1, Lack::Value);
    let value_end = key_end + 1 + encode_utf8(v).len();
    lemma_starts_with_ascii(b, value_end, '\n');
    reveal_with_fuel(grammar::skip_space, 2);
}

/// The spans are those of the properties of `e` from `n` on.
spec fn spans_hold(
    b: Seq<u8>,
    spans: Seq<PropertySpan>,
    e: Seq<(Seq<char>, Seq<char>)>,
    n: nat,
) -> bool {
    &&& spans.len() == e.len() - n
    &&& forall|m: int|
        0 <= m < spans.len() ==> block::string_value(b, (#[trigger] spans[m]).key) == e[n + m].0
            && block::string_value(b, spans[m].value) == e[n + m].1
}

/// The properties of an entity are read as they are.
proof fn lemma_reads_properties(b: Seq<u8>, i: int, e: Seq<(Seq<char>, Seq<char>)>, n: nat)
    requires
        n <= e.len(),
        is_writable(e),
        starts_at(b, i, encode_utf8(properties_text(e, n))),
    ensures
        grammar::properties_from(b, i) matches Ok((spans, end)) && {
            &&& end == i + encode_utf8(properties_text(e, n)).len()
            &&& spans_hold(b, spans, e, n)
        },
    decreases e.len() - n,
{
    if n == e.len() {
        lemma_starts_with_ascii(b, i, '}');
    } else {
        lemma_starts_with_both(b, i, property_text(e[n as int]), properties_text(e, n + 1));
        lemma_reads_property(b, i, e[n as int]);
        let span = grammar::property_at(b, i)->Ok_0;
        let next = span.value.end + 1;
        lemma_reads_properties(b, next, e, n + 1);
        let (rest, end) = grammar::properties_from(b, next)->Ok_0;
        assert(grammar::skip_space(b, i) == i);
        assert(grammar::skip_space(b, span.value.end) == grammar::skip_space(b, next));
        assert(grammar::properties_from(b, span.value.end) == grammar::properties_from(b, next));
        let spans = seq![span] + rest;
        assert forall|m: int| 0 <= m < spans.len() implies block::string_value(
            b,
            (#[trigger] spans[m]).key,
        ) == e[n + m].0 && block::string_value(b, spans[m].value) == e[n + m].1 by {
            if m > 0 {
                assert(spans[m] == rest[m - 1]);
            }
        }
        assert(grammar::properties_from(b, i) == Ok::<(Seq<PropertySpan>, int), Fault>(
            (spans, end),
        ));
    }
}

/// The spans of an entity say what the entity holds.
proof fn lemma_spans_say(
    b: Seq<u8>,
    spans: Seq<PropertySpan>,
    e: Seq<(Seq<char>, Seq<char>)>,
    n: nat,
)
    requires
        spans_hold(b, spans, e, 0),
        properties::keys_distinct(e),
        n <= e.len(),
    ensures
        block::block_value(b, spans, n) == e.take(n as int),
    decreases n,
{
    if n > 0 {
        let m = (n - 1) as nat;
        lemma_spans_say(b, spans, e, m);
        let before = e.take(m as int);
        let key = e[m as int].0;
        assert(block::string_value(b, spans[m as int].key) == key);
        properties::lemma_key_position(before, key);
        let at = properties::key_position(before, key);
        if at < before.len() {
            assert(before[at] == e[at]);
            assert(e[at].0 != e[m as int].0);
        }
        assert(before.push(e[m as int]) =~= e.take(n as int));
    } else {
        assert(e.take(0) =~= Seq::empty());
    }
}

/// Entities are read as they are.
proof fn lemma_reads_entities(
    b: Seq<u8>,
    i: int,
    es: Seq<Seq<(Seq<char>, Seq<char>)>>,
    n: nat,
)
    requires
        n <= es.len(),
        forall|k: int| 0 <= k < es.len() ==> is_writable(#[trigger] es[k]),
        starts_at(b, i, encode_utf8(entities_text(es, n))),
        i + encode_utf8(entities_text(es, n)).len() == b.len(),
    ensures
        grammar::blocks_from(b, i) matches Ok(spans) && {
            &&& spans.len() == es.len() - n
            &&& forall|m: int|
                0 <= m < spans.len() ==> block::block_value(
                    b,
                    (#[trigger] spans[m]).properties,
                    spans[m].properties.len(),
                ) == es[n + m]
        },
    decreases es.len() - n,
{
    if n < es.len() {
        let e = es[n as int];
        let head = seq!['{', '\n'];
        let body = properties_text(e, 0);
        let rest = entities_text(es, n + 1);
        assert(is_writable(e));
        lemma_starts_with_both(b, i, head + body + seq!['\n'], rest);
        lemma_starts_with_both(b, i, head + body, seq!['\n']);
        lemma_starts_with_both(b, i, head, body);
        assert(head =~= seq!['{'] + seq!['\n']);
        lemma_starts_with_both(b, i, seq!['{'], seq!['\n']);
        lemma_starts_with_ascii(b, i, '{');
        lemma_starts_with_ascii(b, i + 1, '\n');
        lemma_reads_properties(b, i + 2, e, 0);
        let (props, end) = grammar::properties_from(b, i + 2)->Ok_0;
        lemma_starts_with_ascii(b, end, '\n');
        lemma_reads_entities(b, end + 1, es, n + 1);
        let tail = grammar::blocks_from(b, end + 1)->Ok_0;
        assert(grammar::skip_space(b, i) == i);
        assert(grammar::skip_space(b, i + 1) == grammar::skip_space(b, i + 2));
        assert(grammar::properties_from(b, i + 1) == grammar::properties_from(b, i + 2));
        assert(grammar::skip_space(b, end) == grammar::skip_space(b, end + 1));
        assert(grammar::blocks_from(b, end) == grammar::blocks_from(b, end + 1));
        let span = BlockSpan { start: i, end, properties: props };
        let spans = seq![span] + tail;
        assert(grammar::blocks_from(b, i) == Ok::<Seq<BlockSpan>, Fault>(spans));
        lemma_spans_say(b, props, e, e.len());
        assert(e.take(e.len() as int) =~= e);
        assert forall|m: int| 0 <= m < spans.len() implies block::block_value(
            b,
            (#[trigger] spans[m]).properties,
            spans[m].properties.len(),
        ) == es[n + m] by {
            if m > 0 {
                assert(spans[m] == tail[m - 1]);
            }
        }
    }
}

/// Entities that are written as maps hold them are read as they are: every
/// property of every entity, in order.
pub proof fn written_entities_read_back(es: Seq<Seq<(Seq<char>, Seq<char>)>>)
    requires
        forall|k: int| 0 <= k < es.len() ==> is_writable(#[trigger] es[k]),
    ensures
        block::meaning(encode_utf8(entities_text(es, 0))) == Ok::<
            Seq<Seq<(Seq<char>, Seq<char>)>>,
            Seq<char>,
        >(es),
{
    let b = encode_utf8(entities_text(es, 0));
    assert(b.subrange(0, b.len() as int) =~= b);
    lemma_reads_entities(b, 0, es, 0);
    let spans = grammar::blocks_from(b, 0)->Ok_0;
    assert(spans.map_values(
        |s: BlockSpan| block::block_value(b, s.properties, s.properties.len()),
    ) =~= es);
}

/// No key appears twice in what is read.
pub proof fn read_keys_are_distinct(b: Seq<u8>, spans: Seq<PropertySpan>, n: nat)
    ensures
        properties::keys_distinct(block::block_value(b, spans, n)),
    decreases n,
{
    if n > 0 {
        read_keys_are_distinct(b, spans, (n - 1) as nat);
        let p = spans[n - 1];
        let key = block::string_value(b, p.key);
        properties::set_property_reads_back(
            block::block_value(b, spans, (n - 1) as nat),
            key,
            block::string_value(b, p.value),
            key,
        );
    }
}

/// Of several values of a key, the last one is read.
pub proof fn last_value_wins(b: Seq<u8>, spans: Seq<PropertySpan>, n: nat, i: int)
    requires
        0 <= i < n <= spans.len(),
        forall|j: int|
            i < j < n ==> block::string_value(b, (#[trigger] spans[j]).key)
                != block::string_value(b, spans[i].key),
    ensures
        properties::lookup(
            block::block_value(b, spans, n),
            block::string_value(b, spans[i].key),
        ) == Some(block::string_value(b, spans[i].value)),
    decreases n,
{
    let m = (n - 1) as nat;
    let before = block::block_value(b, spans, m);
    let key = block::string_value(b, spans[i].key);
    properties::set_property_reads_back(
        before,
        block::string_value(b, spans[m as int].key),
        block::string_value(b, spans[m as int].value),
        key,
    );
    if i < m {
        last_value_wins(b, spans, m, i);
    }
}

} // verus!
