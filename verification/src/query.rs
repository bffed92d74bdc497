//! The query string of a download request: `key=value` pairs joined by `&`,
//! values percent-encoded.

use vstd::prelude::*;
use crate::text::{find_char, lemma_find_char, find_from, chars_of, string_from, slice_of};
use crate::urlcodec::{decoded_or_same, decode_or_keep};

verus! {

/// The pieces of `s` between the occurrences of `sep`, as `str::split` gives
/// them (one piece more than there are separators).
pub open spec fn split_on(s: Seq<char>, sep: char) -> Seq<Seq<char>>
    decreases s.len(),
{
    match find_char(s, sep) {
        Some(i) => {
            proof {
                lemma_find_char(s, sep);
            }
            seq![s.take(i as int)] + split_on(s.skip(i as int + 1), sep)
        },
        None => seq![s],
    }
}

/// The key of one `key=value` piece: what precedes its first `=`.
pub open spec fn piece_key(piece: Seq<char>) -> Seq<char> {
    match find_char(piece, '=') {
        Some(i) => piece.take(i as int),
        None => piece,
    }
}

/// The raw value of one piece: what follows its first `=`, or nothing.
pub open spec fn piece_value(piece: Seq<char>) -> Seq<char> {
    match find_char(piece, '=') {
        Some(i) => piece.skip(i as int + 1),
        None => Seq::empty(),
    }
}

/// The pairs of a query string, in order, each value percent-decoded.
pub open spec fn query_pairs(query: Seq<char>) -> Seq<(Seq<char>, Seq<char>)> {
    split_on(query, '&').map_values(
        |piece: Seq<char>| (piece_key(piece), decoded_or_same(piece_value(piece))),
    )
}

/// The texts of a vector of pairs.
pub open spec fn pairs_view(pairs: Seq<(String, String)>) -> Seq<(Seq<char>, Seq<char>)> {
    pairs.map_values(|p: (String, String)| (p.0@, p.1@))
}

/// The value of the last pair with `key`: what a map built from the pairs in
/// order holds for `key`.
pub open spec fn lookup_last(pairs: Seq<(Seq<char>, Seq<char>)>, key: Seq<char>) -> Option<Seq<char>>
    decreases pairs.len(),
{
    if pairs.len() == 0 {
        None
    } else if pairs.last().0 == key {
        Some(pairs.last().1)
    } else {
        lookup_last(pairs.drop_last(), key)
    }
}

/// Splits `text` at the first `=` into the key and its decoded value.
fn parse_pair(piece: &[char]) -> (r: (String, String))
    ensures
        r.0@ == piece_key(piece@),
        r.1@ == decoded_or_same(piece_value(piece@)),
{
    let v = piece;
    assert(v@.skip(0) == piece@);
    match find_from(v, 0, '=') {
        Some(i) => {
            let key = string_from(slice_of(v, 0, i));
            let raw = string_from(slice_of(v, i + 1, v.len()));
            assert(piece@.take(i as int) == v@.subrange(0, i as int));
            assert(piece@.skip(i + 1) == v@.subrange(i + 1, v@.len() as int));
            let value = decode_or_keep(raw.as_str());
            (key, value)
        },
        None => {
            let key = string_from(piece);
            let value = decode_or_keep("");
            proof {
                reveal_strlit("");
            }
            (key, value)
        },
    }
}

/// The pairs of a query string (`a=1&b=2`), in order, values decoded.
pub fn parse_query(query: &str) -> (pairs: Vec<(String, String)>)
    ensures
        pairs_view(pairs@) == query_pairs(query@),
{
    let cs = chars_of(query);
    let mut pairs: Vec<(String, String)> = Vec::new();
    let mut from: usize = 0;
    let ghost mut done: Seq<Seq<char>> = Seq::empty();
    assert(cs@.skip(0) == cs@);
    assert(split_on(query@, '&') == done + split_on(cs@.skip(0), '&'));
    loop
        invariant
            from <= cs.len(),
            cs@ == query@,
            split_on(query@, '&') == done + split_on(cs@.skip(from as int), '&'),
            pairs_view(pairs@) == done.map_values(
                |piece: Seq<char>| (piece_key(piece), decoded_or_same(piece_value(piece))),
            ),
        decreases cs.len() - from,
    {
        let ghost rest = cs@.skip(from as int);
        match find_from(&cs, from, '&') {
            Some(j) => {
                let piece = slice_of(&cs, from, j);
                assert(piece@ == rest.take(j - from));
                assert(cs@.skip(j + 1) == rest.skip(j - from + 1));
                assert(split_on(rest, '&') == seq![piece@] + split_on(cs@.skip(j + 1), '&'));
                let pair = parse_pair(piece);
                let ghost before = pairs@;
                pairs.push(pair);
                proof {
                    assert(split_on(query@, '&') == done.push(piece@) + split_on(cs@.skip(j + 1), '&'));
                    assert(pairs@ == before.push(pair));
                    assert(pairs_view(pairs@) == pairs_view(before).push((pair.0@, pair.1@)));
                    done = done.push(piece@);
                }
                from = j + 1;
            },
            None => {
                let piece = slice_of(&cs, from, cs.len());
                assert(piece@ == rest);
                assert(split_on(rest, '&') == seq![rest]);
                let pair = parse_pair(piece);
                let ghost before = pairs@;
                pairs.push(pair);
                proof {
                    assert(split_on(query@, '&') == done.push(piece@));
                    assert(pairs@ == before.push(pair));
                    assert(pairs_view(pairs@) == pairs_view(before).push((pair.0@, pair.1@)));
                }
                return pairs;
            },
        }
    }
}

/// The value of the last pair whose key is `key`, as a map collected from
/// the pairs gives it.
pub fn query_value(pairs: &Vec<(String, String)>, key: &str) -> (r: Option<String>)
    ensures
        match r {
            Some(v) => lookup_last(pairs_view(pairs@), key@) == Some(v@),
            None => lookup_last(pairs_view(pairs@), key@) is None,
        },
{
    let mut i = pairs.len();
    assert(pairs@.take(i as int) == pairs@);
    while i > 0
        invariant
            i <= pairs.len(),
            lookup_last(pairs_view(pairs@), key@) == lookup_last(pairs_view(pairs@.take(i as int)), key@),
        decreases i,
    {
        let ghost prefix = pairs_view(pairs@.take(i as int));
        assert(prefix.last() == (pairs@[i - 1].0@, pairs@[i - 1].1@));
        if crate::text::same_text(pairs[i - 1].0.as_str(), key) {
            return Some(pairs[i - 1].1.clone());
        }
        assert(prefix.drop_last() == pairs_view(pairs@.take(i - 1)));
        i = i - 1;
    }
    assert(pairs_view(pairs@.take(0)) == Seq::<(Seq<char>, Seq<char>)>::empty());
    None
}

} // verus!
