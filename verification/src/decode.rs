//! Decode options and how a query string asks for them.

use crate::text::{
    after_first, before_first, chars_equal, find_char, law_cut_at_first, law_no_number,
    law_split_whole, parse_chars, parse_unsigned, pieces_view, split_chars, split_on, to_chars,
};
use vstd::prelude::*;

verus! {

/// What the decoded audio is to look like. A value that is not given is left to
/// the decoder.
#[derive(Debug, Clone, Copy, PartialEq, Eq)]
pub struct DecodeOptions {
    pub output_sample_rate: Option<u32>,
    pub output_bits_per_sample: Option<u8>,
    pub output_channels: Option<u8>,
}

/// No wishes at all.
pub open spec fn no_options() -> DecodeOptions {
    DecodeOptions { output_sample_rate: None, output_bits_per_sample: None, output_channels: None }
}

impl Default for DecodeOptions {
    fn default() -> (r: Self)
        ensures
            r == no_options(),
    {
        DecodeOptions {
            output_sample_rate: None,
            output_bits_per_sample: None,
            output_channels: None,
        }
    }
}

/// The key of a `key=value` pair: all of the pair where there is no `=`.
pub open spec fn key_of(pair: Seq<char>) -> Seq<char> {
    before_first(pair, '=')
}

/// The value of a `key=value` pair: what follows the first `=`.
pub open spec fn value_of(pair: Seq<char>) -> Seq<char> {
    after_first(pair, '=')
}

/// Whether a key asks for a sample rate.
pub open spec fn names_rate(key: Seq<char>) -> bool {
    key == "sample_rate"@ || key == "output_sample_rate"@
}

/// Whether a key asks for a number of bits per sample.
pub open spec fn names_bits(key: Seq<char>) -> bool {
    key == "bits"@ || key == "output_bits"@ || key == "bits_per_sample"@
}

/// Whether a key asks for a number of channels.
pub open spec fn names_channels(key: Seq<char>) -> bool {
    key == "channels"@ || key == "output_channels"@
}

/// The sample rate that a pair asks for: any number of 32 bits.
pub open spec fn rate_asked(pair: Seq<char>) -> Option<u32> {
    match parse_unsigned(value_of(pair), u32::MAX as nat) {
        Some(v) => if names_rate(key_of(pair)) {
            Some(v as u32)
        } else {
            None
        },
        None => None,
    }
}

/// The bits per sample that a pair asks for: 16, 24 or 32.
pub open spec fn bits_asked(pair: Seq<char>) -> Option<u8> {
    match parse_unsigned(value_of(pair), u8::MAX as nat) {
        Some(v) => if names_bits(key_of(pair)) && (v == 16 || v == 24 || v == 32) {
            Some(v as u8)
        } else {
            None
        },
        None => None,
    }
}

/// The number of channels that a pair asks for: one to sixteen.
pub open spec fn channels_asked(pair: Seq<char>) -> Option<u8> {
    match parse_unsigned(value_of(pair), u8::MAX as nat) {
        Some(v) => if names_channels(key_of(pair)) && 1 <= v <= 16 {
            Some(v as u8)
        } else {
            None
        },
        None => None,
    }
}

/// The last of the answers that `ask` gives on the pairs, if it gives any.
pub open spec fn last_asked<T>(
    pairs: Seq<Seq<char>>,
    ask: spec_fn(Seq<char>) -> Option<T>,
) -> Option<T>
    decreases pairs.len(),
{
    if pairs.len() == 0 {
        None
    } else if ask(pairs.last()) is Some {
        ask(pairs.last())
    } else {
        last_asked(pairs.drop_last(), ask)
    }
}

/// The options that a list of pairs asks for: for each option the last pair that
/// asks for it with a valid value.
pub open spec fn options_of_pairs(pairs: Seq<Seq<char>>) -> DecodeOptions {
    DecodeOptions {
        output_sample_rate: last_asked(pairs, |p: Seq<char>| rate_asked(p)),
        output_bits_per_sample: last_asked(pairs, |p: Seq<char>| bits_asked(p)),
        output_channels: last_asked(pairs, |p: Seq<char>| channels_asked(p)),
    }
}

/// The options that a query string asks for; its pairs are separated by `&`.
pub open spec fn options_of_query(query: Seq<char>) -> DecodeOptions {
    options_of_pairs(split_on(query, '&'))
}

/// Applies one pair to the options gathered so far.
fn apply_pair(options: &mut DecodeOptions, pair: &[char])
    ensures
        final(options).output_sample_rate == (if rate_asked(pair@) is Some {
            rate_asked(pair@)
        } else {
            old(options).output_sample_rate
        }),
        final(options).output_bits_per_sample == (if bits_asked(pair@) is Some {
            bits_asked(pair@)
        } else {
            old(options).output_bits_per_sample
        }),
        final(options).output_channels == (if channels_asked(pair@) is Some {
            channels_asked(pair@)
        } else {
            old(options).output_channels
        }),
{
    proof {
        lemma_key_kinds(key_of(pair@));
    }
    let at: usize = find_char(pair, '=');
    let key: &[char] = vstd::slice::slice_subrange(pair, 0, at);
    assert(key@ =~= key_of(pair@));
    let start: usize = if at < pair.len() { at + 1 } else { at };
    let value: &[char] = vstd::slice::slice_subrange(pair, start, pair.len());
    assert(value@ =~= value_of(pair@));
    if chars_equal(key, "sample_rate") || chars_equal(key, "output_sample_rate") {
        if let Some(rate) = parse_chars(value, u32::MAX as u64) {
            options.output_sample_rate = Some(rate as u32);
        }
    } else if chars_equal(key, "bits") || chars_equal(key, "output_bits") || chars_equal(
        key,
        "bits_per_sample",
    ) {
        if let Some(bits) = parse_chars(value, u8::MAX as u64) {
            if bits == 16 || bits == 24 || bits == 32 {
                options.output_bits_per_sample = Some(bits as u8);
            }
        }
    } else if chars_equal(key, "channels") || chars_equal(key, "output_channels") {
        if let Some(channels) = parse_chars(value, u8::MAX as u64) {
            if channels > 0 && channels <= 16 {
                options.output_channels = Some(channels as u8);
            }
        }
    }
}

/// A key names at most one kind of option.
proof fn lemma_key_kinds(key: Seq<char>)
    ensures
        !(names_rate(key) && names_bits(key)),
        !(names_rate(key) && names_channels(key)),
        !(names_bits(key) && names_channels(key)),
{
    reveal_strlit("sample_rate");
    reveal_strlit("output_sample_rate");
    reveal_strlit("bits");
    reveal_strlit("output_bits");
    reveal_strlit("bits_per_sample");
    reveal_strlit("channels");
    reveal_strlit("output_channels");
    if names_rate(key) && names_channels(key) {
        assert(key.len() == 11 || key.len() == 18);
    }
    if names_bits(key) && names_channels(key) {
        assert(key[0] == 'b' || key[7] == 'b');
        assert("output_bits"@[7] == 'b');
        assert("bits_per_sample"@[0] == 'b');
        assert("output_channels"@[0] == 'o');
    }
    if names_rate(key) && names_bits(key) {
        assert("sample_rate"@[0] == 's');
        assert("output_bits"@[0] == 'o');
        assert("output_sample_rate"@.len() == 18 && "bits_per_sample"@.len() == 15);
        assert("sample_rate"@.len() == 11 && "bits"@.len() == 4 && "output_bits"@.len() == 11);
    }
}

/// Reads decode options from the query part of a request.
pub fn parse_decode_options(query: Option<&str>) -> (r: DecodeOptions)
    ensures
        r == (match query {
            Some(q) => options_of_query(q@),
            None => no_options(),
        }),
{
    let mut options: DecodeOptions = DecodeOptions::default();
    if let Some(q) = query {
        let chars: Vec<char> = to_chars(q);
        let pairs: Vec<Vec<char>> = split_chars(chars.as_slice(), '&');
        let ghost pieces = pieces_view(pairs@);
        let mut i: usize = 0;
        while i < pairs.len()
            invariant
                i <= pairs.len(),
                pieces == pieces_view(pairs@),
                options == options_of_pairs(pieces.take(i as int)),
            decreases pairs.len() - i,
        {
            apply_pair(&mut options, pairs[i].as_slice());
            proof {
                let now = pieces.take(i + 1);
                assert(now.drop_last() =~= pieces.take(i as int));
                assert(now.last() == pairs@[i as int]@);
            }
            i += 1;
        }
        assert(pieces.take(pieces.len() as int) =~= pieces);
    }
    options
}

/// Whatever a query says, the options it yields are valid: bits per sample are
/// 16, 24 or 32 and there are one to sixteen channels.
pub proof fn law_query_options_valid(query: Seq<char>)
    ensures
        ({
            let options = options_of_query(query);
            &&& options.output_bits_per_sample matches Some(bits) ==> bits == 16 || bits == 24
                || bits == 32
            &&& options.output_channels matches Some(channels) ==> 1 <= channels <= 16
        }),
{
    let pairs = split_on(query, '&');
    lemma_last_asked_found(pairs, |p: Seq<char>| bits_asked(p));
    lemma_last_asked_found(pairs, |p: Seq<char>| channels_asked(p));
}

/// An answer that was found is the answer on one of the pairs.
proof fn lemma_last_asked_found<T>(
    pairs: Seq<Seq<char>>,
    ask: spec_fn(Seq<char>) -> Option<T>,
)
    ensures
        last_asked(pairs, ask) is Some ==> exists|i: int|
            0 <= i < pairs.len() && #[trigger] ask(pairs[i]) == last_asked(pairs, ask),
    decreases pairs.len(),
{
    if pairs.len() > 0 {
        if ask(pairs.last()) is Some {
            assert(ask(pairs[pairs.len() - 1]) == last_asked(pairs, ask));
        } else {
            lemma_last_asked_found(pairs.drop_last(), ask);
            if last_asked(pairs, ask) is Some {
                let i = choose|i: int|
                    0 <= i < pairs.drop_last().len() && #[trigger] ask(pairs.drop_last()[i])
                        == last_asked(pairs, ask);
                assert(ask(pairs[i]) == last_asked(pairs, ask));
            }
        }
    }
}

/// A query that is added behind another one wins for every option that it asks
/// for, and leaves the others as the first one has them.
pub proof fn law_later_query_wins(first: Seq<char>, second: Seq<char>)
    ensures
        ({
            let a = options_of_query(first);
            let b = options_of_query(second);
            let both = options_of_query(first.push('&') + second);
            &&& both.output_sample_rate == if b.output_sample_rate is Some {
                b.output_sample_rate
            } else {
                a.output_sample_rate
            }
            &&& both.output_bits_per_sample == if b.output_bits_per_sample is Some {
                b.output_bits_per_sample
            } else {
                a.output_bits_per_sample
            }
            &&& both.output_channels == if b.output_channels is Some {
                b.output_channels
            } else {
                a.output_channels
            }
        }),
{
    lemma_split_appended(first, second, '&');
    let a = split_on(first, '&');
    let b = split_on(second, '&');
    lemma_last_asked_concat(a, b, |p: Seq<char>| rate_asked(p));
    lemma_last_asked_concat(a, b, |p: Seq<char>| bits_asked(p));
    lemma_last_asked_concat(a, b, |p: Seq<char>| channels_asked(p));
}

/// The last answer on two lists of pairs is that on the second, if there is one.
proof fn lemma_last_asked_concat<T>(
    a: Seq<Seq<char>>,
    b: Seq<Seq<char>>,
    ask: spec_fn(Seq<char>) -> Option<T>,
)
    ensures
        last_asked(a + b, ask) == if last_asked(b, ask) is Some {
            last_asked(b, ask)
        } else {
            last_asked(a, ask)
        },
    decreases b.len(),
{
    if b.len() == 0 {
        assert(a + b =~= a);
    } else {
        assert((a + b).drop_last() =~= a + b.drop_last());
        assert((a + b).last() == b.last());
        lemma_last_asked_concat(a, b.drop_last(), ask);
    }
}

/// Two texts with a separator between them have the pieces of both.
proof fn lemma_split_appended(s: Seq<char>, t: Seq<char>, sep: char)
    ensures
        split_on(s.push(sep) + t, sep) == split_on(s, sep) + split_on(t, sep),
        split_on(t, sep).len() > 0,
    decreases t.len(),
{
    let all = s.push(sep) + t;
    let head = split_on(s, sep);
    if t.len() == 0 {
        assert(all.drop_last() =~= s);
        assert(all.last() == sep);
        assert(split_on(all, sep) =~= head + split_on(t, sep));
    } else {
        let prior = t.drop_last();
        assert(all.drop_last() =~= s.push(sep) + prior);
        assert(all.last() == t.last());
        lemma_split_appended(s, prior, sep);
        let pieces = split_on(prior, sep);
        assert((head + pieces).drop_last() =~= head + pieces.drop_last());
        assert((head + pieces).last() == pieces.last());
        assert(split_on(all, sep) =~= head + split_on(t, sep));
    }
}

/// What a query with a single `key=value` pair asks for is what its key names: a
/// sample rate, which may be any number of 32 bits; bits per sample, which are 16, 24
/// or 32; or channels, of which there are one to sixteen. A pair with another key, or
/// with a value that is no such number, asks for nothing.
pub proof fn law_query_pair(key: Seq<char>, value: Seq<char>)
    requires
        !key.contains('='),
        !key.contains('&'),
        !value.contains('&'),
    ensures
        ({
            let asked = options_of_query(key.push('=') + value);
            &&& asked.output_sample_rate == (if key == "sample_rate"@ || key
                == "output_sample_rate"@ {
                match parse_unsigned(value, 4294967295) {
                    Some(v) => Some(v as u32),
                    None => None,
                }
            } else {
                None
            })
            &&& asked.output_bits_per_sample == (if key == "bits"@ || key == "output_bits"@ || key
                == "bits_per_sample"@ {
                match parse_unsigned(value, 255) {
                    Some(v) => if v == 16 || v == 24 || v == 32 {
                        Some(v as u8)
                    } else {
                        None
                    },
                    None => None,
                }
            } else {
                None
            })
            &&& asked.output_channels == (if key == "channels"@ || key == "output_channels"@ {
                match parse_unsigned(value, 255) {
                    Some(v) => if 1 <= v <= 16 {
                        Some(v as u8)
                    } else {
                        None
                    },
                    None => None,
                }
            } else {
                None
            })
        }),
{
    let query = key.push('=') + value;
    if query.contains('&') {
        let i = choose|i: int| 0 <= i < query.len() && query[i] == '&';
        if i < key.len() {
            assert(key[i] == '&');
        } else {
            assert(i > key.len());
            assert(value[i - key.len() - 1] == '&');
        }
    }
    law_split_whole(query, '&');
    lemma_single_pair(query);
    law_cut_at_first(query, '=');
    assert(query[key.len() as int] == '=');
    assert(query.contains('='));
    let before = key_of(query);
    assert(before == key) by {
        if before.len() < key.len() {
            assert((before.push('=') + value_of(query))[before.len() as int] == '=');
            assert(key[before.len() as int] == '=');
        }
        if before.len() > key.len() {
            assert((before.push('=') + value_of(query))[key.len() as int] == before[key.len() as int]);
            assert(before[key.len() as int] == '=');
        }
        assert forall|i: int| 0 <= i < key.len() implies before[i] == key[i] by {
            assert((before.push('=') + value_of(query))[i] == before[i]);
            assert(query[i] == key[i]);
        }
        assert(before =~= key);
    }
    assert(value_of(query) =~= value) by {
        assert((before.push('=') + value_of(query)).skip((key.len() + 1) as int) =~= value_of(query));
        assert(query.skip((key.len() + 1) as int) =~= value);
    }
    lemma_key_kinds(key);
}

/// The options of a single pair.
proof fn lemma_single_pair(pair: Seq<char>)
    requires
        split_on(pair, '&') == seq![pair],
    ensures
        options_of_query(pair).output_sample_rate == rate_asked(pair),
        options_of_query(pair).output_bits_per_sample == bits_asked(pair),
        options_of_query(pair).output_channels == channels_asked(pair),
{
    reveal_with_fuel(last_asked, 2);
    assert(seq![pair].drop_last() =~= seq![]);
}

/// A query without any value asks for nothing, and neither does an empty one.
pub proof fn law_query_without_value(query: Seq<char>)
    requires
        !query.contains('='),
        !query.contains('&'),
    ensures
        options_of_query(query) == (DecodeOptions {
            output_sample_rate: None,
            output_bits_per_sample: None,
            output_channels: None,
        }),
{
    law_split_whole(query, '&');
    lemma_single_pair(query);
    law_cut_at_first(query, '=');
    law_no_number(query, 0, 0);
    assert(value_of(query) == Seq::<char>::empty());
}

} // verus!
