//! The words of a text.

use vstd::prelude::*;

verus! {

broadcast use vstd::string::group_string_axioms;

/// The character is white space: it has the Unicode property `White_Space`.
pub open spec fn is_white(c: char) -> bool {
    let n = c as int;
    ||| 0x9 <= n <= 0xd
    ||| n == 0x20
    ||| n == 0x85
    ||| n == 0xa0
    ||| n == 0x1680
    ||| 0x2000 <= n <= 0x200a
    ||| n == 0x2028
    ||| n == 0x2029
    ||| n == 0x202f
    ||| n == 0x205f
    ||| n == 0x3000
}

/// How many characters stand before the first white space.
pub open spec fn word_length(s: Seq<char>) -> int
    decreases s.len(),
{
    if s.len() == 0 || is_white(s[0]) {
        0
    } else {
        1 + word_length(s.drop_first())
    }
}

/// A word is no longer than the text that it starts.
pub proof fn lemma_word_length(s: Seq<char>)
    ensures
        0 <= word_length(s) <= s.len(),
        s.len() > 0 && !is_white(s[0]) ==> word_length(s) > 0,
        word_length(s) < s.len() ==> is_white(s[word_length(s)]),
        forall|i: int| 0 <= i < word_length(s) ==> !is_white(#[trigger] s[i]),
    decreases s.len(),
{
    if s.len() > 0 && !is_white(s[0]) {
        let rest = s.drop_first();
        lemma_word_length(rest);
        assert forall|i: int| 0 <= i < word_length(s) implies !is_white(#[trigger] s[i]) by {
            if i > 0 {
                assert(rest[i - 1] == s[i]);
            }
        }
    }
}

/// The words of a text: what stands between white space.
pub open spec fn words_of(s: Seq<char>) -> Seq<Seq<char>>
    decreases s.len(),
{
    if s.len() == 0 {
        Seq::empty()
    } else if is_white(s[0]) {
        words_of(s.drop_first())
    } else {
        let n = word_length(s);
        proof {
            lemma_word_length(s);
        }
        seq![s.take(n)] + words_of(s.skip(n))
    }
}

/// The character is white space.
pub fn white(c: char) -> (r: bool)
    ensures
        r == is_white(c),
{
    let n: u32 = c as u32;
    (0x9 <= n && n <= 0xd) || n == 0x20 || n == 0x85 || n == 0xa0 || n == 0x1680 || (0x2000 <= n
        && n <= 0x200a) || n == 0x2028 || n == 0x2029 || n == 0x202f || n == 0x205f || n == 0x3000
}

/// A character in front of a word makes it longer.
proof fn lemma_longer_word(s: Seq<char>, start: int, end: int)
    requires
        0 <= start <= end < s.len(),
        forall|i: int| start <= i < end ==> !is_white(#[trigger] s[i]),
    ensures
        !is_white(s[end]) ==> word_length(s.skip(start)) >= end + 1 - start,
        is_white(s[end]) ==> word_length(s.skip(start)) == end - start,
{
    let t = s.skip(start);
    lemma_word_length(t);
    let n = word_length(t);
    if n < t.len() {
        assert(t[n] == s[start + n]);
    }
    if end - start < n {
        assert(t[end - start] == s[end]);
    }
}

/// The words of a text.
pub fn words(text: &str) -> (r: Vec<String>)
    ensures
        r@.map_values(|w: String| w@) == words_of(text@),
{
    let ghost s = text@;
    let mut out: Vec<String> = Vec::new();
    let mut word = String::new();
    let ghost mut start: int = 0;
    assert(s.skip(0) =~= s);
    assert(out@.map_values(|w: String| w@) + words_of(s) =~= words_of(s));
    for c in it: text.chars()
        invariant
            it.seq() == s,
            s == text@,
            0 <= start <= it.index() <= s.len(),
            word@ == s.subrange(start, it.index() as int),
            forall|i: int| start <= i < it.index() ==> !is_white(#[trigger] s[i]),
            out@.map_values(|w: String| w@) + words_of(s.skip(start)) == words_of(s),
    {
        let ghost at = it.index() as int;
        proof {
            lemma_longer_word(s, start, at);
        }
        if white(c) {
            if word.as_str().is_empty() {
                proof {
                    assert(s.skip(start).drop_first() =~= s.skip(at + 1));
                    start = at + 1;
                }
            } else {
                let ghost before = out@;
                out.push(word);
                proof {
                    reveal_with_fuel(words_of, 2);
                    let rest = s.skip(start);
                    assert(rest[0] == s[start]);
                    assert(s.skip(at)[0] == s[at]);
                    assert(rest.take(at - start) =~= s.subrange(start, at));
                    assert(rest.skip(at - start) =~= s.skip(at));
                    assert(s.skip(at).drop_first() =~= s.skip(at + 1));
                    assert(out@.map_values(|w: String| w@) =~= before.map_values(|w: String| w@)
                        + seq![s.subrange(start, at)]);
                    assert(words_of(rest) == seq![s.subrange(start, at)] + words_of(s.skip(at + 1)));
                    assert(out@.map_values(|w: String| w@) + words_of(s.skip(at + 1))
                        =~= before.map_values(|w: String| w@) + words_of(rest));
                    start = at + 1;
                }
                word = String::new();
            }
            assert(word@ =~= s.subrange(start, at + 1));
        } else {
            word.push(c);
            assert(word@ =~= s.subrange(start, at + 1));
        }
    }
    if !word.as_str().is_empty() {
        let ghost before = out@;
        proof {
            let n = s.len() as int;
            reveal_with_fuel(words_of, 2);
            let rest = s.skip(start);
            assert(rest[0] == s[start]);
            lemma_word_length(rest);
            if word_length(rest) < rest.len() {
                assert(rest[word_length(rest)] == s[start + word_length(rest)]);
            }
            assert(rest.take(n - start) =~= s.subrange(start, n));
            assert(rest.skip(n - start) =~= Seq::<char>::empty());
            assert(words_of(rest) =~= seq![s.subrange(start, n)]);
        }
        out.push(word);
        assert(out@.map_values(|w: String| w@) =~= before.map_values(|w: String| w@) + seq![
            s.subrange(start, s.len() as int),
        ]);
    } else {
        assert(s.skip(start) =~= Seq::<char>::empty());
        assert(out@.map_values(|w: String| w@) =~= words_of(s));
    }
    out
}

/// What the length of a word is.
proof fn lemma_word_ends(s: Seq<char>, n: int)
    requires
        0 <= n <= s.len(),
        forall|i: int| 0 <= i < n ==> !is_white(#[trigger] s[i]),
        n < s.len() ==> is_white(s[n]),
    ensures
        word_length(s) == n,
{
    lemma_word_length(s);
    let m = word_length(s);
    if m < n {
        assert(is_white(s[m]));
    }
    if n < m {
        assert(!is_white(s[n]));
    }
}

/// White space parts a text: the words of two texts with white space in between are those
/// of the one and then those of the other.
pub proof fn white_space_parts_words(a: Seq<char>, c: char, b: Seq<char>)
    requires
        is_white(c),
    ensures
        words_of(a + seq![c] + b) == words_of(a) + words_of(b),
    decreases a.len(),
{
    let s = a + seq![c] + b;
    if a.len() == 0 {
        assert(s[0] == c);
        assert(s.drop_first() =~= b);
        assert(words_of(a) + words_of(b) =~= words_of(b));
    } else if is_white(a[0]) {
        white_space_parts_words(a.drop_first(), c, b);
        assert(s[0] == a[0]);
        assert(s.drop_first() =~= a.drop_first() + seq![c] + b);
    } else {
        let n = word_length(a);
        lemma_word_length(a);
        assert(s[0] == a[0]);
        assert forall|i: int| 0 <= i < n implies !is_white(#[trigger] s[i]) by {
            assert(s[i] == a[i]);
        }
        assert(n < a.len() ==> s[n] == a[n]);
        assert(n == a.len() ==> s[n] == c);
        lemma_word_ends(s, n);
        white_space_parts_words(a.skip(n), c, b);
        assert(s.skip(n) =~= a.skip(n) + seq![c] + b);
        assert(s.take(n) =~= a.take(n));
        assert(words_of(s) =~= words_of(a) + words_of(b));
    }
}

/// A text without white space is one word, and an empty one has none.
pub proof fn what_has_no_white_space_is_a_word(s: Seq<char>)
    requires
        forall|i: int| 0 <= i < s.len() ==> !is_white(#[trigger] s[i]),
    ensures
        s.len() > 0 ==> words_of(s) == seq![s],
        s.len() == 0 ==> words_of(s).len() == 0,
{
    if s.len() > 0 {
        assert(!is_white(s[0]));
        lemma_word_ends(s, s.len() as int);
        let n = s.len() as int;
        assert(s.take(n) =~= s);
        assert(s.skip(n).len() == 0);
        assert(words_of(s.skip(n)) =~= Seq::empty());
        assert(words_of(s) =~= seq![s]);
    }
}

/// There are twenty-five characters of white space.
pub proof fn white_space_is_listed(c: char)
    ensures
        is_white(c) <==> seq![
            0x9int,
            0xa,
            0xb,
            0xc,
            0xd,
            0x20,
            0x85,
            0xa0,
            0x1680,
            0x2000,
            0x2001,
            0x2002,
            0x2003,
            0x2004,
            0x2005,
            0x2006,
            0x2007,
            0x2008,
            0x2009,
            0x200a,
            0x2028,
            0x2029,
            0x202f,
            0x205f,
            0x3000,
        ].contains(c as int),
{
    let n = c as int;
    let all = seq![
        0x9int,
        0xa,
        0xb,
        0xc,
        0xd,
        0x20,
        0x85,
        0xa0,
        0x1680,
        0x2000,
        0x2001,
        0x2002,
        0x2003,
        0x2004,
        0x2005,
        0x2006,
        0x2007,
        0x2008,
        0x2009,
        0x200a,
        0x2028,
        0x2029,
        0x202f,
        0x205f,
        0x3000,
    ];
    assert(all.len() == 25);
    if 0x9 <= n <= 0xd {
        assert(all[n - 0x9] == n);
    }
    if 0x2000 <= n <= 0x200a {
        assert(all[n - 0x2000 + 9] == n);
    }
    assert(all[5] == 0x20 && all[6] == 0x85 && all[7] == 0xa0 && all[8] == 0x1680);
    assert(all[20] == 0x2028 && all[21] == 0x2029 && all[22] == 0x202f && all[23] == 0x205f);
    assert(all[24] == 0x3000);
}

} // verus!
