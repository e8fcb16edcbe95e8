//! Decoding of the five character entities that html5 processors must
//! support: `&quot;` `&apos;` `&amp;` `&lt;` `&gt;`. All other characters of a
//! template are expected to be plain utf-8 already.

use crate::text::{chars_of, matches_at, starts_with, string_from_chars};
use vstd::prelude::*;

verus! {

/// The name of the `i`-th entity.
pub open spec fn entity_name(i: int) -> Seq<char> {
    if i == 0 {
        seq!['&', 'q', 'u', 'o', 't', ';']
    } else if i == 1 {
        seq!['&', 'a', 'p', 'o', 's', ';']
    } else if i == 2 {
        seq!['&', 'a', 'm', 'p', ';']
    } else if i == 3 {
        seq!['&', 'l', 't', ';']
    } else {
        seq!['&', 'g', 't', ';']
    }
}

/// The character that the `i`-th entity stands for.
pub open spec fn entity_symbol(i: int) -> char {
    if i == 0 {
        '"'
    } else if i == 1 {
        '\''
    } else if i == 2 {
        '&'
    } else if i == 3 {
        '<'
    } else {
        '>'
    }
}

/// The entity with which `s` begins, if any.
pub open spec fn entity_at(s: Seq<char>) -> Option<int> {
    if starts_with(s, entity_name(0)) {
        Some(0)
    } else if starts_with(s, entity_name(1)) {
        Some(1)
    } else if starts_with(s, entity_name(2)) {
        Some(2)
    } else if starts_with(s, entity_name(3)) {
        Some(3)
    } else if starts_with(s, entity_name(4)) {
        Some(4)
    } else {
        None
    }
}

/// What `decode_minimum_html_entities` returns for the text `s`: read once
/// from left to right, each entity is replaced by its character and every
/// other character is kept; what an entity turns into is not read again.
pub open spec fn decoded(s: Seq<char>) -> Seq<char>
    decreases s.len(),
{
    if s.len() == 0 {
        seq![]
    } else {
        match entity_at(s) {
            Some(i) => seq![entity_symbol(i)] + decoded(s.skip(entity_name(i).len() as int)),
            None => seq![s[0]] + decoded(s.drop_first()),
        }
    }
}

/// The entity that begins at position `i` of `s`, if any.
fn entity_at_pos(s: &Vec<char>, i: usize, names: &Vec<Vec<char>>) -> (r: Option<usize>)
    requires
        i <= s.len(),
        names.len() == 5,
        forall|k: int| 0 <= k < 5 ==> #[trigger] names@[k]@ == entity_name(k),
    ensures
        r matches Some(k) ==> k < 5,
        r matches Some(k) ==> entity_at(s@.skip(i as int)) == Some(k as int),
        r is None ==> entity_at(s@.skip(i as int)) is None,
{
    if matches_at(s, i, &names[0]) {
        Some(0)
    } else if matches_at(s, i, &names[1]) {
        Some(1)
    } else if matches_at(s, i, &names[2]) {
        Some(2)
    } else if matches_at(s, i, &names[3]) {
        Some(3)
    } else if matches_at(s, i, &names[4]) {
        Some(4)
    } else {
        None
    }
}

/// Decodes the entities `&quot;` `&apos;` `&amp;` `&lt;` `&gt;` into the
/// characters `"` `'` `&` `<` `>`, reading the text once from left to right
/// (so `&amp;lt;` becomes `&lt;`).
pub fn decode_minimum_html_entities(input: &str) -> (output: String)
    ensures
        output@ == decoded(input@),
{
    let entity_symbols: Vec<char> = vec!['"', '\'', '&', '<', '>'];
    let entity_names: Vec<Vec<char>> = vec![
        vec!['&', 'q', 'u', 'o', 't', ';'],
        vec!['&', 'a', 'p', 'o', 's', ';'],
        vec!['&', 'a', 'm', 'p', ';'],
        vec!['&', 'l', 't', ';'],
        vec!['&', 'g', 't', ';'],
    ];
    assert(forall|k: int| 0 <= k < 5 ==> #[trigger] entity_names@[k]@ == entity_name(k));
    assert(forall|k: int| 0 <= k < 5 ==> #[trigger] entity_symbols@[k] == entity_symbol(k));
    let chars = chars_of(input);
    let mut output: Vec<char> = Vec::new();
    let mut i: usize = 0;
    assert(chars@.skip(0) =~= chars@);
    assert(output@ + decoded(chars@) =~= decoded(chars@));
    while i < chars.len()
        invariant
            entity_symbols.len() == 5,
            entity_names.len() == 5,
            forall|k: int| 0 <= k < 5 ==> #[trigger] entity_names@[k]@ == entity_name(k),
            forall|k: int| 0 <= k < 5 ==> #[trigger] entity_symbols@[k] == entity_symbol(k),
            i <= chars.len(),
            output@ + decoded(chars@.skip(i as int)) == decoded(chars@),
        decreases chars.len() - i,
    {
        let ghost rest = chars@.skip(i as int);
        let ghost old_out = output@;
        match entity_at_pos(&chars, i, &entity_names) {
            Some(k) => {
                output.push(entity_symbols[k]);
                let n = entity_names[k].len();
                assert(rest.skip(n as int) =~= chars@.skip(i + n));
                assert(old_out + (seq![entity_symbol(k as int)] + decoded(rest.skip(n as int)))
                    =~= output@ + decoded(rest.skip(n as int)));
                i += n;
            },
            None => {
                output.push(chars[i]);
                assert(rest.drop_first() =~= chars@.skip(i + 1));
                assert(old_out + (seq![rest[0]] + decoded(rest.drop_first())) =~= output@
                    + decoded(rest.drop_first()));
                i += 1;
            },
        }
    }
    assert(chars@.skip(i as int) =~= Seq::<char>::empty());
    assert(output@ + Seq::<char>::empty() =~= output@);
    string_from_chars(output)
}

/// The html encoding of one character: the five special characters become
/// their entities, any other stays as it is.
pub open spec fn encoded_char(c: char) -> Seq<char> {
    if c == '"' {
        entity_name(0)
    } else if c == '\'' {
        entity_name(1)
    } else if c == '&' {
        entity_name(2)
    } else if c == '<' {
        entity_name(3)
    } else if c == '>' {
        entity_name(4)
    } else {
        seq![c]
    }
}

/// The html encoding of a text, character by character.
pub open spec fn encoded(s: Seq<char>) -> Seq<char>
    decreases s.len(),
{
    if s.len() == 0 {
        seq![]
    } else {
        encoded_char(s[0]) + encoded(s.drop_first())
    }
}

proof fn lemma_decode_entity_then(i: int, rest: Seq<char>)
    requires
        0 <= i < 5,
    ensures
        decoded(entity_name(i) + rest) == seq![entity_symbol(i)] + decoded(rest),
{
    let e = entity_name(i) + rest;
    let n = entity_name(i).len();
    assert(e[0] == '&');
    assert(e[1] == entity_name(i)[1]);
    assert(e[2] == entity_name(i)[2]);
    assert(starts_with(e, entity_name(i)));
    if i >= 1 {
        assert(!starts_with(e, entity_name(0))) by {
            assert(e[1] != entity_name(0)[1]);
        }
    }
    if i >= 2 {
        assert(!starts_with(e, entity_name(1))) by {
            assert(e[2] != entity_name(1)[2]);
        }
    }
    if i >= 3 {
        assert(!starts_with(e, entity_name(2))) by {
            assert(e[1] != entity_name(2)[1]);
        }
    }
    if i >= 4 {
        assert(!starts_with(e, entity_name(3))) by {
            assert(e[1] != entity_name(3)[1]);
        }
    }
    assert(entity_at(e) == Some(i));
    assert(e.skip(n as int) =~= rest);
}

/// Decoding undoes html encoding: decoding the encoding of any text gives
/// the text back.
pub proof fn law_decode_inverts_encode(s: Seq<char>)
    ensures
        decoded(encoded(s)) == s,
    decreases s.len(),
{
    if s.len() > 0 {
        let c = s[0];
        let rest = s.drop_first();
        law_decode_inverts_encode(rest);
        if c == '"' {
            lemma_decode_entity_then(0, encoded(rest));
        } else if c == '\'' {
            lemma_decode_entity_then(1, encoded(rest));
        } else if c == '&' {
            lemma_decode_entity_then(2, encoded(rest));
        } else if c == '<' {
            lemma_decode_entity_then(3, encoded(rest));
        } else if c == '>' {
            lemma_decode_entity_then(4, encoded(rest));
        } else {
            let e = seq![c] + encoded(rest);
            assert(entity_at(e) is None) by {
                assert(e[0] != '&');
            }
            assert(e.drop_first() =~= encoded(rest));
        }
        assert(seq![c] + rest =~= s);
    }
}

/// Text that contains no `&` holds no entity: decoding gives it back unchanged.
pub proof fn law_decode_without_ampersand_is_identity(s: Seq<char>)
    requires
        !s.contains('&'),
    ensures
        decoded(s) == s,
    decreases s.len(),
{
    if s.len() > 0 {
        assert(entity_at(s) is None) by {
            assert(s[0] != '&');
        }
        assert(!s.drop_first().contains('&')) by {
            if s.drop_first().contains('&') {
                let k = choose|k: int| 0 <= k < s.drop_first().len() && s.drop_first()[k] == '&';
                assert(s[k + 1] == '&');
            }
        }
        law_decode_without_ampersand_is_identity(s.drop_first());
        assert(seq![s[0]] + s.drop_first() =~= s);
    }
}

/// Decoding never makes a text longer: each entity becomes one character.
pub proof fn law_decode_never_lengthens(s: Seq<char>)
    ensures
        decoded(s).len() <= s.len(),
    decreases s.len(),
{
    if s.len() > 0 {
        match entity_at(s) {
            Some(i) => law_decode_never_lengthens(s.skip(entity_name(i).len() as int)),
            None => law_decode_never_lengthens(s.drop_first()),
        }
    }
}

/// Decoding is local: a character other than `&` is kept, and the rest is
/// decoded as though it stood alone.
pub proof fn law_decode_keeps_plain_char(c: char, t: Seq<char>)
    requires
        c != '&',
    ensures
        decoded(seq![c] + t) == seq![c] + decoded(t),
{
    let s = seq![c] + t;
    assert(s[0] == c);
    assert(entity_at(s) is None);
    assert(s.drop_first() =~= t);
}

/// Text without `&` in front of a text is kept, and the text behind it is
/// decoded as though it stood alone.
pub proof fn law_decode_plain_prefix(a: Seq<char>, b: Seq<char>)
    requires
        !a.contains('&'),
    ensures
        decoded(a + b) == a + decoded(b),
    decreases a.len(),
{
    if a.len() > 0 {
        let a2 = a.drop_first();
        assert(!a2.contains('&')) by {
            if a2.contains('&') {
                let k = choose|k: int| 0 <= k < a2.len() && a2[k] == '&';
                assert(a[k + 1] == '&');
            }
        }
        assert(a[0] != '&');
        law_decode_plain_prefix(a2, b);
        assert(a + b =~= seq![a[0]] + (a2 + b));
        law_decode_keeps_plain_char(a[0], a2 + b);
        assert(seq![a[0]] + (a2 + decoded(b)) =~= a + decoded(b));
    }
}

/// Each of the five entities becomes its character, and what follows it is
/// decoded as though it stood alone.
pub proof fn law_decode_each_entity(t: Seq<char>)
    ensures
        decoded(seq!['&', 'q', 'u', 'o', 't', ';'] + t) == seq!['"'] + decoded(t),
        decoded(seq!['&', 'a', 'p', 'o', 's', ';'] + t) == seq!['\''] + decoded(t),
        decoded(seq!['&', 'a', 'm', 'p', ';'] + t) == seq!['&'] + decoded(t),
        decoded(seq!['&', 'l', 't', ';'] + t) == seq!['<'] + decoded(t),
        decoded(seq!['&', 'g', 't', ';'] + t) == seq!['>'] + decoded(t),
{
    lemma_decode_entity_then(0, t);
    lemma_decode_entity_then(1, t);
    lemma_decode_entity_then(2, t);
    lemma_decode_entity_then(3, t);
    lemma_decode_entity_then(4, t);
}

/// An `&` that begins none of the five names is kept as it is.
pub proof fn law_decode_keeps_lone_ampersand(t: Seq<char>)
    requires
        !starts_with(t, seq!['q', 'u', 'o', 't', ';']),
        !starts_with(t, seq!['a', 'p', 'o', 's', ';']),
        !starts_with(t, seq!['a', 'm', 'p', ';']),
        !starts_with(t, seq!['l', 't', ';']),
        !starts_with(t, seq!['g', 't', ';']),
    ensures
        decoded(seq!['&'] + t) == seq!['&'] + decoded(t),
{
    let s = seq!['&'] + t;
    assert forall|i: int| 0 <= i < 5 implies !starts_with(s, #[trigger] entity_name(i)) by {
        if starts_with(s, entity_name(i)) {
            let nm = entity_name(i);
            let tail = nm.drop_first();
            assert forall|k: int| 0 <= k < tail.len() implies t[k] == tail[k] by {
                assert(s[k + 1] == nm[k + 1]);
            }
            assert(starts_with(t, tail));
            if i == 0 {
                assert(tail =~= seq!['q', 'u', 'o', 't', ';']);
            } else if i == 1 {
                assert(tail =~= seq!['a', 'p', 'o', 's', ';']);
            } else if i == 2 {
                assert(tail =~= seq!['a', 'm', 'p', ';']);
            } else if i == 3 {
                assert(tail =~= seq!['l', 't', ';']);
            } else {
                assert(tail =~= seq!['g', 't', ';']);
            }
        }
    }
    assert(entity_at(s) is None) by {
        assert(!starts_with(s, entity_name(0)));
        assert(!starts_with(s, entity_name(1)));
        assert(!starts_with(s, entity_name(2)));
        assert(!starts_with(s, entity_name(3)));
        assert(!starts_with(s, entity_name(4)));
    }
    assert(s.drop_first() =~= t);
}

/// Decoding the empty text gives the empty text.
pub proof fn law_decode_empty()
    ensures
        decoded(Seq::<char>::empty()) == Seq::<char>::empty(),
{
}

} // verus!
