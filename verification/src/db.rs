//! Database keys: byte strings built by concatenating text pieces.

use vstd::prelude::*;
use vstd::string::*;
use vstd::utf8::*;
use crate::timestamp::{decimal, digit_char, DateSpec, DateTimeSpec, UtcDate, UtcDateTime};

verus! {

/// A database key: a plain sequence of bytes.
#[derive(Debug, Clone, PartialEq)]
pub struct Key(pub Vec<u8>);

impl View for Key {
    type V = Seq<u8>;

    open spec fn view(&self) -> Seq<u8> {
        self.0@
    }
}

impl Key {
    /// The key whose bytes are those of `self` followed by those of `k`.
    pub fn join(&self, k: Key) -> (r: Key)
        ensures
            r@ == self@ + k@,
    {
        let mut left: Vec<u8> = vstd::slice::slice_to_vec(self.0.as_slice());
        let mut right: Vec<u8> = k.0;
        left.append(&mut right);
        Key(left)
    }

    /// The key with no bytes.
    pub fn empty() -> (r: Key)
        ensures
            r@ == Seq::<u8>::empty(),
    {
        let v: Vec<u8> = Vec::new();
        Key(v)
    }
}

/// The key made of the UTF-8 bytes of a string slice.
impl<'a> From<&'a str> for Key {
    fn from(val: &'a str) -> (r: Key)
        ensures
            r@ == val.spec_bytes(),
    {
        Key(vstd::slice::slice_to_vec(val.as_bytes()))
    }
}

// A key holds a `Vec`, and two vectors with equal contents are not known to
// be equal values in specifications; so the conversions into keys make no
// claim through `from_spec`, and each `from` states its bytes in its own
// `ensures` instead.
impl<'a> vstd::std_specs::convert::FromSpecImpl<&'a str> for Key {
    open spec fn obeys_from_spec() -> bool {
        false
    }

    open spec fn from_spec(v: &'a str) -> Key {
        choose|k: Key| k@ == v.spec_bytes()
    }
}

/// The key made of the UTF-8 bytes of an owned string.
impl From<String> for Key {
    fn from(val: String) -> (r: Key)
        ensures
            r@ == encode_utf8(val@),
    {
        Key(vstd::slice::slice_to_vec(val.as_str().as_bytes()))
    }
}

impl vstd::std_specs::convert::FromSpecImpl<String> for Key {
    open spec fn obeys_from_spec() -> bool {
        false
    }

    open spec fn from_spec(v: String) -> Key {
        choose|k: Key| k@ == encode_utf8(v@)
    }
}

/// The key made of the RFC 3339 text of a date-time.
impl From<UtcDateTime> for Key {
    fn from(val: UtcDateTime) -> (r: Key)
        ensures
            r@ == encode_utf8(val@.rfc3339()),
    {
        let text = val.to_rfc3339();
        Key(vstd::slice::slice_to_vec(text.as_str().as_bytes()))
    }
}

impl vstd::std_specs::convert::FromSpecImpl<UtcDateTime> for Key {
    open spec fn obeys_from_spec() -> bool {
        false
    }

    open spec fn from_spec(v: UtcDateTime) -> Key {
        choose|k: Key| k@ == encode_utf8(v@.rfc3339())
    }
}

/// The date-time at midnight (UTC) that starts a date.
pub open spec fn midnight(d: DateSpec) -> DateTimeSpec {
    DateTimeSpec { year: d.year, month: d.month, day: d.day, hour: 0, minute: 0, second: 0, nano: 0 }
}

/// The key of a date: the RFC 3339 text of the midnight that starts it.
impl From<UtcDate> for Key {
    fn from(val: UtcDate) -> (r: Key)
        ensures
            r@ == encode_utf8(midnight(val@).rfc3339()),
    {
        let start = val.and_hms(0, 0, 0);
        Key::from(start)
    }
}

impl vstd::std_specs::convert::FromSpecImpl<UtcDate> for Key {
    open spec fn obeys_from_spec() -> bool {
        false
    }

    open spec fn from_spec(v: UtcDate) -> Key {
        choose|k: Key| k@ == encode_utf8(midnight(v@).rfc3339())
    }
}

/// The bytes of the given pieces, one after another.
pub open spec fn concat_all(parts: Seq<Seq<u8>>) -> Seq<u8>
    decreases parts.len(),
{
    if parts.len() == 0 {
        Seq::empty()
    } else {
        parts[0] + concat_all(parts.drop_first())
    }
}

/// Six pieces, one after another.
pub proof fn lemma_concat_all_six(a: Seq<u8>, b: Seq<u8>, c: Seq<u8>, d: Seq<u8>, e: Seq<u8>, f: Seq<u8>)
    ensures
        concat_all(seq![a, b, c, d, e, f]) == a + b + c + d + e + f,
{
    let s6 = seq![a, b, c, d, e, f];
    let s5 = seq![b, c, d, e, f];
    let s4 = seq![c, d, e, f];
    let s3 = seq![d, e, f];
    let s2 = seq![e, f];
    let s1 = seq![f];
    let s0 = Seq::<Seq<u8>>::empty();
    assert(s6.drop_first() =~= s5 && s6[0] == a);
    assert(s5.drop_first() =~= s4 && s5[0] == b);
    assert(s4.drop_first() =~= s3 && s4[0] == c);
    assert(s3.drop_first() =~= s2 && s3[0] == d);
    assert(s2.drop_first() =~= s1 && s2[0] == e);
    assert(s1.drop_first() =~= s0 && s1[0] == f);
    assert(concat_all(s0) == Seq::<u8>::empty());
    assert(concat_all(s1) == f + concat_all(s0));
    assert(concat_all(s2) == e + concat_all(s1));
    assert(concat_all(s3) == d + concat_all(s2));
    assert(concat_all(s4) == c + concat_all(s3));
    assert(concat_all(s5) == b + concat_all(s4));
    assert(concat_all(s6) == a + concat_all(s5));
    assert(concat_all(s6) =~= a + b + c + d + e + f);
}

/// The byte sequences of a list of keys.
pub open spec fn key_views(parts: Seq<Key>) -> Seq<Seq<u8>> {
    parts.map_values(|k: Key| k@)
}

/// The key made of the given keys one after another: `make_key(&[a, b, c])`
/// is `a.join(b.join(c.join(Key::empty())))`, and no keys make the empty key.
pub fn make_key(parts: &[Key]) -> (r: Key)
    ensures
        r@ == concat_all(key_views(parts@)),
{
    let n = parts.len();
    let mut acc = Key::empty();
    let mut i: usize = n;
    assert(key_views(parts@).skip(n as int) =~= Seq::<Seq<u8>>::empty());
    while i > 0
        invariant
            n == parts@.len(),
            i <= n,
            acc@ == concat_all(key_views(parts@).skip(i as int)),
        decreases i,
    {
        i = i - 1;
        let ghost views = key_views(parts@);
        assert(views.skip(i as int).drop_first() =~= views.skip(i + 1));
        assert(views.skip(i as int)[0] == parts@[i as int]@);
        acc = parts[i].join(acc);
    }
    assert(key_views(parts@).skip(0) =~= key_views(parts@));
    acc
}

/// Joining keys is associative.
pub proof fn law_join_associative(a: Key, b: Key, c: Key)
    ensures
        (a@ + b@) + c@ == a@ + (b@ + c@),
{
    assert((a@ + b@) + c@ =~= a@ + (b@ + c@));
}

/// The empty key is a unit of joining, on either side.
pub proof fn law_join_empty(a: Key)
    ensures
        Seq::<u8>::empty() + a@ == a@,
        a@ + Seq::<u8>::empty() == a@,
{
    assert(Seq::<u8>::empty() + a@ =~= a@);
    assert(a@ + Seq::<u8>::empty() =~= a@);
}

/// Making a key of pieces puts the first piece before the key made of the
/// rest, as the recursive definition of the key macro does.
pub proof fn law_make_key_cons(parts: Seq<Key>)
    requires
        parts.len() > 0,
    ensures
        concat_all(key_views(parts)) == parts[0]@ + concat_all(key_views(parts.drop_first())),
{
    assert(key_views(parts).drop_first() =~= key_views(parts.drop_first()));
}

/// The key made of two groups of pieces is the join of the keys of each group.
pub proof fn law_make_key_append(p: Seq<Key>, q: Seq<Key>)
    ensures
        concat_all(key_views(p + q)) == concat_all(key_views(p)) + concat_all(key_views(q)),
    decreases p.len(),
{
    if p.len() == 0 {
        assert(p + q =~= q);
        assert(key_views(p) =~= Seq::<Seq<u8>>::empty());
        assert(Seq::<u8>::empty() + concat_all(key_views(q)) =~= concat_all(key_views(q)));
    } else {
        law_make_key_append(p.drop_first(), q);
        assert((p + q).drop_first() =~= p.drop_first() + q);
        law_make_key_cons(p + q);
        law_make_key_cons(p);
        assert(p[0]@ + (concat_all(key_views(p.drop_first())) + concat_all(key_views(q))) =~= (p[0]@
            + concat_all(key_views(p.drop_first()))) + concat_all(key_views(q)));
    }
}

/// The text of a key made from text is that text again.
pub proof fn law_text_key_decodes(s: &str, k: Key)
    requires
        k@ == s.spec_bytes(),
    ensures
        valid_utf8(k@),
        decode_utf8(k@) == s@,
{
    broadcast use vstd::utf8::group_utf8_lib;

}

/// The decimal text of the numbers in `b`, separated by ", ".
pub open spec fn byte_list_text(b: Seq<u8>) -> Seq<char>
    decreases b.len(),
{
    if b.len() == 0 {
        Seq::empty()
    } else if b.len() == 1 {
        decimal(b[0] as nat)
    } else {
        decimal(b[0] as nat) + seq![',', ' '] + byte_list_text(b.drop_first())
    }
}

/// The text that `{:?}` prints for a key, such as `Key([104, 105])`.
pub open spec fn key_debug_text(b: Seq<u8>) -> Seq<char> {
    seq!['K', 'e', 'y', '(', '['] + byte_list_text(b) + seq![']', ')']
}

/// Appends the decimal digits of `n`.
fn push_decimal(out: &mut Vec<char>, n: u8)
    ensures
        final(out)@ == old(out)@ + decimal(n as nat),
{
    proof {
        reveal_with_fuel(decimal, 3);
    }
    if n >= 100 {
        out.push(digit(n / 100));
        out.push(digit((n / 10) % 10));
        out.push(digit(n % 10));
        assert(decimal(n as nat) =~= seq![digit_char((n / 100) as int), digit_char(((n / 10) % 10) as int), digit_char((n % 10) as int)]);
    } else if n >= 10 {
        out.push(digit(n / 10));
        out.push(digit(n % 10));
        assert(decimal(n as nat) =~= seq![digit_char((n / 10) as int), digit_char((n % 10) as int)]);
    } else {
        out.push(digit(n));
        assert(decimal(n as nat) =~= seq![digit_char(n as int)]);
    }
    assert(final(out)@ =~= old(out)@ + decimal(n as nat));
}

/// The character of a decimal digit.
fn digit(d: u8) -> (c: char)
    requires
        d < 10,
    ensures
        c == digit_char(d as int),
{
    if d == 0 { '0' } else if d == 1 { '1' } else if d == 2 { '2' } else if d == 3 { '3' } else if d == 4 {
        '4'
    } else if d == 5 { '5' } else if d == 6 { '6' } else if d == 7 { '7' } else if d == 8 { '8' } else {
        '9'
    }
}

impl Key {
    /// The text that `{:?}` prints for this key.
    pub fn debug_text(&self) -> (r: String)
        ensures
            r@ == key_debug_text(self@),
    {
        let mut out: Vec<char> = Vec::new();
        out.push('K');
        out.push('e');
        out.push('y');
        out.push('(');
        out.push('[');
        let ghost head = out@;
        let n = self.0.len();
        let mut i: usize = 0;
        while i < n
            invariant
                n == self@.len(),
                i <= n,
                head == seq!['K', 'e', 'y', '(', '['],
                out@ == head + byte_list_text(self@.take(i as int)),
            decreases n - i,
        {
            proof {
                lemma_byte_list_text_push(self@.take(i as int), self@[i as int]);
                assert(self@.take(i + 1) =~= self@.take(i as int).push(self@[i as int]));
            }
            if i > 0 {
                out.push(',');
                out.push(' ');
            }
            let ghost before = out@;
            push_decimal(&mut out, self.0[i]);
            assert(out@ =~= head + byte_list_text(self@.take(i + 1)));
            i = i + 1;
        }
        assert(self@.take(n as int) =~= self@);
        out.push(']');
        out.push(')');
        assert(out@ =~= key_debug_text(self@));
        crate::text::string_of(out.as_slice())
    }
}

proof fn lemma_byte_list_text_push(b: Seq<u8>, x: u8)
    ensures
        byte_list_text(b.push(x)) == if b.len() == 0 {
            decimal(x as nat)
        } else {
            byte_list_text(b) + seq![',', ' '] + decimal(x as nat)
        },
    decreases b.len(),
{
    if b.len() == 0 {
        assert(b.push(x)[0] == x);
    } else if b.len() == 1 {
        assert(b.push(x).drop_first() =~= seq![x]);
        assert(seq![x][0] == x);
        assert(byte_list_text(seq![x]) == decimal(x as nat));
        assert(b.push(x)[0] == b[0]);
    } else {
        lemma_byte_list_text_push(b.drop_first(), x);
        assert(b.push(x).drop_first() =~= b.drop_first().push(x));
        assert(b.push(x)[0] == b[0]);
        assert(decimal(b[0] as nat) + seq![',', ' '] + (byte_list_text(b.drop_first()) + seq![',', ' ']
            + decimal(x as nat)) =~= decimal(b[0] as nat) + seq![',', ' '] + byte_list_text(b.drop_first())
            + seq![',', ' '] + decimal(x as nat));
    }
}

/// The message of a lookup that found no value under `key`.
pub fn missing_key_message(key: &Key) -> (r: String)
    ensures
        r@ == "Could not find key '"@ + key_debug_text(key@) + "' in DB"@,
{
    let dbg = key.debug_text();
    let mut m = String::from_str("Could not find key '");
    m.append(dbg.as_str());
    m.append("' in DB");
    m
}

/// The message of a lookup whose store failed with the error printed as `err`.
pub fn fetch_error_message(key: &Key, err: &str) -> (r: String)
    ensures
        r@ == "Error fetching key '"@ + key_debug_text(key@) + "' from DB: "@ + err@,
{
    let dbg = key.debug_text();
    let mut m = String::from_str("Error fetching key '");
    m.append(dbg.as_str());
    m.append("' from DB: ");
    m.append(err);
    m
}

/// The message of a lookup whose value could not be decoded, the decoder's
/// error printed as `err`.
pub fn decode_error_message(key: &Key, err: &str) -> (r: String)
    ensures
        r@ == "Error deserializing key '"@ + key_debug_text(key@) + "' from DB: "@ + err@,
{
    let dbg = key.debug_text();
    let mut m = String::from_str("Error deserializing key '");
    m.append(dbg.as_str());
    m.append("' from DB: ");
    m.append(err);
    m
}

/// What a typed lookup does with the store's answer for `key`: the stored
/// bytes, to be decoded, or the error message.  `fetched` is the store's
/// answer, its error printed as text.
pub fn lookup_bytes(key: &Key, fetched: Result<Option<Vec<u8>>, String>) -> (r: Result<Vec<u8>, String>)
    ensures
        match fetched {
            Ok(None) => r matches Err(m) && m@ == "Could not find key '"@ + key_debug_text(key@) + "' in DB"@,
            Ok(Some(v)) => r matches Ok(w) && w@ == v@,
            Err(e) => r matches Err(m) && m@ == "Error fetching key '"@ + key_debug_text(key@) + "' from DB: "@ + e@,
        },
{
    match fetched {
        Ok(None) => Err(missing_key_message(key)),
        Ok(Some(v)) => Ok(v),
        Err(e) => Err(fetch_error_message(key, e.as_str())),
    }
}

} // verus!
