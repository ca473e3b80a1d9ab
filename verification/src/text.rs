//! Text: UTF-8 decoding of stored bytes, and splitting text at a separator.

use vstd::prelude::*;
use vstd::string::*;
use vstd::utf8::*;

verus! {

broadcast use vstd::utf8::group_utf8_lib;

/// The pieces of `s` between occurrences of `sep`, in order; there is one
/// more piece than there are separators, so the empty text has one empty
/// piece.
pub open spec fn split_fields(s: Seq<char>, sep: char) -> Seq<Seq<char>>
    decreases s.len(),
{
    if s.len() == 0 {
        seq![Seq::<char>::empty()]
    } else {
        let f = split_fields(s.drop_last(), sep);
        if s.last() == sep {
            f.push(Seq::<char>::empty())
        } else {
            f.update(f.len() - 1, f.last().push(s.last()))
        }
    }
}

/// Splitting yields at least one piece.
pub proof fn lemma_split_fields_nonempty(s: Seq<char>, sep: char)
    ensures
        split_fields(s, sep).len() >= 1,
    decreases s.len(),
{
    if s.len() > 0 {
        lemma_split_fields_nonempty(s.drop_last(), sep);
    }
}

/// Text without the separator is a single piece.
pub proof fn lemma_split_fields_no_sep(s: Seq<char>, sep: char)
    requires
        !s.contains(sep),
    ensures
        split_fields(s, sep) == seq![s],
    decreases s.len(),
{
    if s.len() > 0 {
        assert(!s.drop_last().contains(sep)) by {
            if s.drop_last().contains(sep) {
                let i = choose|i: int| 0 <= i < s.drop_last().len() && s.drop_last()[i] == sep;
                assert(s[i] == sep);
            }
        }
        lemma_split_fields_no_sep(s.drop_last(), sep);
        assert(s.last() != sep) by {
            assert(s[s.len() - 1] == s.last());
        }
        assert(s.drop_last().push(s.last()) =~= s);
        assert(seq![s.drop_last()].update(0, s.drop_last().push(s.last())) =~= seq![s]);
    } else {
        assert(s =~= Seq::<char>::empty());
    }
}

/// Appending text after the end of a split only changes the last piece and
/// adds new pieces: text that is followed by a separator and `rest`
/// splits into its own pieces followed by those of `rest`.
pub proof fn lemma_split_fields_append(a: Seq<char>, rest: Seq<char>, sep: char)
    ensures
        split_fields(a + seq![sep] + rest, sep) == split_fields(a, sep) + split_fields(rest, sep),
    decreases rest.len(),
{
    lemma_split_fields_nonempty(a, sep);
    lemma_split_fields_nonempty(rest, sep);
    let whole = a + seq![sep] + rest;
    if rest.len() == 0 {
        assert(whole.drop_last() =~= a);
        assert(whole.last() == sep);
        assert(split_fields(rest, sep) == seq![Seq::<char>::empty()]);
        assert(split_fields(a, sep).push(Seq::<char>::empty()) =~= split_fields(a, sep) + split_fields(rest, sep));
    } else {
        let r0 = rest.drop_last();
        lemma_split_fields_append(a, r0, sep);
        lemma_split_fields_nonempty(r0, sep);
        assert(whole.drop_last() =~= a + seq![sep] + r0);
        assert(whole.last() == rest.last());
        let fa = split_fields(a, sep);
        let fr = split_fields(r0, sep);
        if rest.last() == sep {
            assert((fa + fr).push(Seq::<char>::empty()) =~= fa + fr.push(Seq::<char>::empty()));
        } else {
            assert((fa + fr).update((fa + fr).len() - 1, (fa + fr).last().push(rest.last())) =~= fa
                + fr.update(fr.len() - 1, fr.last().push(rest.last())));
        }
    }
}

/// The pieces joined into one text, with `sep` between each two.
pub open spec fn join_fields(fields: Seq<Seq<char>>, sep: char) -> Seq<char>
    decreases fields.len(),
{
    if fields.len() <= 1 {
        if fields.len() == 0 { Seq::empty() } else { fields[0] }
    } else {
        fields[0] + seq![sep] + join_fields(fields.drop_first(), sep)
    }
}

/// Splitting undoes joining: pieces that hold no separator, joined with
/// it, split back into the same pieces.
pub proof fn law_split_join(fields: Seq<Seq<char>>, sep: char)
    requires
        fields.len() >= 1,
        forall|i: int| 0 <= i < fields.len() ==> !(#[trigger] fields[i]).contains(sep),
    ensures
        split_fields(join_fields(fields, sep), sep) == fields,
    decreases fields.len(),
{
    if fields.len() == 1 {
        lemma_split_fields_no_sep(fields[0], sep);
        assert(seq![fields[0]] =~= fields);
    } else {
        let rest = fields.drop_first();
        assert forall|i: int| 0 <= i < rest.len() implies !(#[trigger] rest[i]).contains(sep) by {
            assert(rest[i] == fields[i + 1]);
        }
        law_split_join(rest, sep);
        lemma_split_fields_append(fields[0], join_fields(rest, sep), sep);
        lemma_split_fields_no_sep(fields[0], sep);
        assert(seq![fields[0]] + rest =~= fields);
    }
}

/// The UTF-8 encoding of joined text is the join of the encodings.
pub proof fn lemma_encode_utf8_concat(a: Seq<char>, b: Seq<char>)
    ensures
        encode_utf8(a + b) == encode_utf8(a) + encode_utf8(b),
    decreases a.len(),
{
    if a.len() == 0 {
        assert(a + b =~= b);
    } else {
        lemma_encode_utf8_concat(a.drop_first(), b);
        assert((a + b).drop_first() =~= a.drop_first() + b);
        assert((a + b)[0] == a[0]);
    }
}

/// `std::str::from_utf8`: the text whose UTF-8 bytes are `bytes`, or `None`
/// where `bytes` is not valid UTF-8.
#[verifier::external_body]
pub(crate) fn str_from_utf8(bytes: &[u8]) -> (r: Option<&str>)
    ensures
        r is Some <==> valid_utf8(bytes@),
        r matches Some(s) ==> s.spec_bytes() == bytes@,
{
    std::str::from_utf8(bytes).ok()
}

/// The characters of `s`, in order.
pub fn chars_of(s: &str) -> (r: Vec<char>)
    ensures
        r@ == s@,
{
    broadcast use vstd::string::group_string_axioms;

    let mut out: Vec<char> = Vec::new();
    for c in it: s.chars()
        invariant
            it.seq() == s@,
            out@ == it.seq().take(it.index()),
    {
        assert(it.seq().take(it.index() + 1) =~= out@.push(c));
        out.push(c);
    }
    assert(s@.take(s@.len() as int) =~= s@);
    out
}

/// `String::from_iter` over characters: the text made of `cs`.
#[verifier::external_body]
pub(crate) fn string_of(cs: &[char]) -> (r: String)
    ensures
        r@ == cs@,
{
    cs.iter().collect()
}

/// The text whose UTF-8 encoding is `bytes`, or `None` where `bytes` is
/// not valid UTF-8.
pub fn decode(bytes: &[u8]) -> (r: Option<String>)
    ensures
        r is Some <==> valid_utf8(bytes@),
        r matches Some(s) ==> s@ == decode_utf8(bytes@),
{
    match str_from_utf8(bytes) {
        Some(s) => {
            proof {
                assert(decode_utf8(encode_utf8(s@)) == s@);
            }
            Some(s.to_owned())
        },
        None => None,
    }
}

/// The pieces of `s` between occurrences of `sep`.
pub fn split_on(s: &str, sep: char) -> (r: Vec<String>)
    ensures
        r.len() == split_fields(s@, sep).len(),
        forall|j: int| 0 <= j < r.len() ==> #[trigger] r[j]@ == split_fields(s@, sep)[j],
{
    let cs = chars_of(s);
    let n = cs.len();
    let mut done: Vec<String> = Vec::new();
    let mut cur: Vec<char> = Vec::new();
    let mut i: usize = 0;
    assert(cs@.take(0) =~= Seq::<char>::empty());
    while i < n
        invariant
            n == cs.len(),
            cs@ == s@,
            i <= n,
            done.len() + 1 == split_fields(cs@.take(i as int), sep).len(),
            forall|j: int| 0 <= j < done.len() ==> #[trigger] done[j]@ == split_fields(cs@.take(i as int), sep)[j],
            cur@ == split_fields(cs@.take(i as int), sep).last(),
        decreases n - i,
    {
        let c = cs[i];
        let ghost prev = cs@.take(i as int);
        assert(cs@.take(i + 1).drop_last() =~= prev);
        assert(cs@.take(i + 1).last() == c);
        proof {
            lemma_split_fields_nonempty(prev, sep);
        }
        if c == sep {
            let piece = string_of(cur.as_slice());
            done.push(piece);
            cur = Vec::new();
        } else {
            cur.push(c);
        }
        i = i + 1;
    }
    assert(cs@.take(n as int) =~= s@);
    let last = string_of(cur.as_slice());
    done.push(last);
    done
}

} // verus!
