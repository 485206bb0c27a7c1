//! Bencode, the encoding of torrent files and tracker replies: byte strings
//! (`4:spam`), integers (`i3e`), lists (`l...e`) and dictionaries with byte
//! string keys (`d...e`).

use vstd::prelude::*;
use vstd::string::StringSliceAdditionalSpecFns;

verus! {

/// A decoded value, with the bytes it was decoded from.
#[derive(Debug, PartialEq)]
pub struct BencodeBlob<'a> {
    pub source: &'a [u8],
    pub value: BencodeValue<'a>,
}

/// A decoded value.
#[derive(Debug, PartialEq)]
pub enum BencodeValue<'a> {
    String(&'a [u8]),
    Integer(i64),
    List(Vec<BencodeBlob<'a>>),
    Dictionary(Vec<(&'a str, BencodeBlob<'a>)>),
}

/// The mathematical form of a decoded value, with its source bytes.
pub struct SpecBlob {
    pub source: Seq<u8>,
    pub value: SpecValue,
}

/// The mathematical form of a decoded value; dictionary keys are given by
/// their UTF-8 bytes.
pub enum SpecValue {
    String(Seq<u8>),
    Integer(i64),
    List(Seq<SpecBlob>),
    Dictionary(Seq<(Seq<u8>, SpecBlob)>),
}

impl<'a> BencodeBlob<'a> {
    pub open spec fn spec_view(&self) -> SpecBlob
        decreases self,
    {
        SpecBlob { source: self.source@, value: self.value.spec_view() }
    }
}

impl<'a> BencodeValue<'a> {
    pub open spec fn spec_view(&self) -> SpecValue
        decreases self,
    {
        match self {
            BencodeValue::String(s) => SpecValue::String(s@),
            BencodeValue::Integer(i) => SpecValue::Integer(*i),
            BencodeValue::List(items) => SpecValue::List(blobs_view(items@)),
            BencodeValue::Dictionary(entries) => SpecValue::Dictionary(entries_view(entries@)),
        }
    }
}

/// The mathematical form of each of `items`.
pub open spec fn blobs_view<'a>(items: Seq<BencodeBlob<'a>>) -> Seq<SpecBlob>
    decreases items,
{
    if items.len() == 0 {
        seq![]
    } else {
        blobs_view(items.subrange(0, items.len() - 1)).push(items[items.len() - 1].spec_view())
    }
}

/// The mathematical form of each of `entries`: key bytes and value.
pub open spec fn entries_view<'a>(entries: Seq<(&'a str, BencodeBlob<'a>)>) -> Seq<(Seq<u8>, SpecBlob)>
    decreases entries,
{
    if entries.len() == 0 {
        seq![]
    } else {
        let e = entries[entries.len() - 1];
        entries_view(entries.subrange(0, entries.len() - 1)).push((e.0.spec_bytes(), e.1.spec_view()))
    }
}

/// The input is not bencode, or ends before the value does.
#[derive(Debug, Clone, Copy, PartialEq, Eq, Structural)]
pub struct ParseError;

#[verifier::external_type_specification]
#[verifier::external_body]
pub struct ExUtf8Error(std::str::Utf8Error);

/// `std::str::from_utf8`: the bytes as a string slice when they are valid
/// UTF-8, an error otherwise.
#[verifier::external_body]
pub(crate) fn str_from_utf8<'a>(v: &'a [u8]) -> (r: Result<&'a str, std::str::Utf8Error>)
    ensures
        r is Ok <==> vstd::utf8::valid_utf8(v@),
        r matches Ok(s) ==> s.spec_bytes() == v@,
{
    std::str::from_utf8(v)
}

/// An ASCII decimal digit.
pub open spec fn is_digit(b: u8) -> bool {
    48 <= b <= 57
}

/// The number of decimal digits at the start of `s`.
pub open spec fn digit_run(s: Seq<u8>) -> nat
    decreases s.len(),
{
    if s.len() > 0 && is_digit(s[0]) {
        1 + digit_run(s.drop_first())
    } else {
        0
    }
}

/// The number that the decimal digits `s` write.
pub open spec fn decimal_value(s: Seq<u8>) -> int
    decreases s.len(),
{
    if s.len() == 0 {
        0
    } else {
        decimal_value(s.drop_last()) * 10 + (s.last() - 48)
    }
}

/// An integer at the start of `s`: an optional `-`, then one or more
/// decimal digits, which must not reach the end of the input (another byte
/// must follow them), and a value that fits in an `i64`. Gives the value and
/// the number of bytes it takes.
pub open spec fn spec_integer(s: Seq<u8>) -> Option<(i64, nat)> {
    let start: int = if s.len() > 0 && s[0] == 45 { 1 } else { 0 };
    let n = digit_run(s.skip(start));
    let magnitude = decimal_value(s.subrange(start, start + n));
    let value = if start == 1 { -magnitude } else { magnitude };
    if n == 0 || start + n >= s.len() || value < i64::MIN || value > i64::MAX {
        None
    } else {
        Some((value as i64, (start + n) as nat))
    }
}

/// A byte string at the start of `s`: its length as an integer, `:`, then
/// that many bytes.
pub open spec fn spec_string(s: Seq<u8>) -> Option<(Seq<u8>, nat)> {
    match spec_integer(s) {
        Some((len, n)) => if s[n as int] == 58 && 0 <= len && n + 1 + len <= s.len() {
            Some((s.subrange(n + 1 as int, n + 1 + len), (n + 1 + len) as nat))
        } else {
            None
        },
        None => None,
    }
}

/// A dictionary key at the start of `s`: a byte string that is valid UTF-8.
pub open spec fn spec_key(s: Seq<u8>) -> Option<(Seq<u8>, nat)> {
    match spec_string(s) {
        Some((bytes, n)) => if vstd::utf8::valid_utf8(bytes) {
            Some((bytes, n))
        } else {
            None
        },
        None => None,
    }
}

/// An integer value at the start of `s`: `i`, an integer, `e`.
pub open spec fn spec_bencode_integer(s: Seq<u8>) -> Option<(i64, nat)> {
    if s.len() > 0 && s[0] == 105 {
        match spec_integer(s.skip(1)) {
            Some((v, n)) => if s[n + 1 as int] == 101 {
                Some((v, n + 2))
            } else {
                None
            },
            None => None,
        }
    } else {
        None
    }
}

/// The value at the start of `s` and the number of bytes it takes: chosen by
/// the first byte, `i` for an integer, `l` for a list, `d` for a
/// dictionary, anything else for a byte string.
pub open spec fn spec_value(s: Seq<u8>) -> Option<(SpecValue, nat)>
    decreases s.len(), 0nat,
{
    if s.len() == 0 {
        None
    } else if s[0] == 105 {
        spec_integer_value(s)
    } else if s[0] == 108 {
        match spec_list_items(s.skip(1)) {
            Some((items, n)) => Some((SpecValue::List(items), n + 1)),
            None => None,
        }
    } else if s[0] == 100 {
        match spec_dict_entries(s.skip(1)) {
            Some((entries, n)) => Some((SpecValue::Dictionary(entries), n + 1)),
            None => None,
        }
    } else {
        spec_string_value(s)
    }
}

/// A byte string value at the start of `s`.
pub open spec fn spec_string_value(s: Seq<u8>) -> Option<(SpecValue, nat)> {
    match spec_string(s) {
        Some((bytes, n)) => Some((SpecValue::String(bytes), n)),
        None => None,
    }
}

/// An integer value at the start of `s`.
pub open spec fn spec_integer_value(s: Seq<u8>) -> Option<(SpecValue, nat)> {
    match spec_bencode_integer(s) {
        Some((v, n)) => Some((SpecValue::Integer(v), n)),
        None => None,
    }
}

/// A list at the start of `s`: `l`, values, `e`.
pub open spec fn spec_list(s: Seq<u8>) -> Option<(SpecValue, nat)> {
    if s.len() > 0 && s[0] == 108 {
        match spec_list_items(s.skip(1)) {
            Some((items, n)) => Some((SpecValue::List(items), n + 1)),
            None => None,
        }
    } else {
        None
    }
}

/// A dictionary at the start of `s`: `d`, entries, `e`.
pub open spec fn spec_dictionary(s: Seq<u8>) -> Option<(SpecValue, nat)> {
    if s.len() > 0 && s[0] == 100 {
        match spec_dict_entries(s.skip(1)) {
            Some((entries, n)) => Some((SpecValue::Dictionary(entries), n + 1)),
            None => None,
        }
    } else {
        None
    }
}

/// `rest` is what is left of `input` after the `n` bytes that the
/// specification `expected` says the value `got` takes.
pub open spec fn parsed_as<T>(input: Seq<u8>, rest: Seq<u8>, expected: Option<(T, nat)>, got: T) -> bool {
    let n = input.len() - rest.len();
    &&& 0 <= n
    &&& rest == input.skip(n)
    &&& expected == Some((got, n as nat))
}

/// The values of a list, up to and with its closing `e`.
pub open spec fn spec_list_items(s: Seq<u8>) -> Option<(Seq<SpecBlob>, nat)>
    decreases s.len(), 1nat,
{
    if s.len() == 0 {
        None
    } else if s[0] == 101 {
        Some((seq![], 1))
    } else {
        match spec_value(s) {
            Some((v, n)) => if 0 < n <= s.len() {
                match spec_list_items(s.skip(n as int)) {
                    Some((rest, m)) => Some((seq![SpecBlob { source: s.take(n as int), value: v }] + rest, n + m)),
                    None => None,
                }
            } else {
                None
            },
            None => None,
        }
    }
}

/// The entries of a dictionary, up to and with its closing `e`: each a key
/// followed by a value.
pub open spec fn spec_dict_entries(s: Seq<u8>) -> Option<(Seq<(Seq<u8>, SpecBlob)>, nat)>
    decreases s.len(), 1nat,
{
    if s.len() == 0 {
        None
    } else if s[0] == 101 {
        Some((seq![], 1))
    } else {
        match spec_key(s) {
            Some((key, k)) => if 0 < k <= s.len() {
                let t = s.skip(k as int);
                match spec_value(t) {
                    Some((v, n)) => if 0 < n <= t.len() {
                        match spec_dict_entries(t.skip(n as int)) {
                            Some((rest, m)) => Some((
                                seq![(key, SpecBlob { source: t.take(n as int), value: v })] + rest,
                                k + n + m,
                            )),
                            None => None,
                        }
                    } else {
                        None
                    },
                    None => None,
                }
            } else {
                None
            },
            None => None,
        }
    }
}

proof fn lemma_digit_run(s: Seq<u8>, start: int, pos: int)
    requires
        0 <= start <= pos <= s.len(),
        forall|i: int| start <= i < pos ==> is_digit(#[trigger] s[i]),
        pos == s.len() || !is_digit(s[pos]),
    ensures
        digit_run(s.skip(start)) == pos - start,
    decreases pos - start,
{
    let t = s.skip(start);
    if start < pos {
        assert(t.drop_first() =~= s.skip(start + 1));
        lemma_digit_run(s, start + 1, pos);
    }
}

proof fn lemma_decimal_push(s: Seq<u8>, d: u8)
    ensures
        decimal_value(s.push(d)) == decimal_value(s) * 10 + (d - 48),
{
    assert(s.push(d).drop_last() =~= s);
}

proof fn lemma_decimal_nonneg(s: Seq<u8>)
    requires
        forall|i: int| 0 <= i < s.len() ==> is_digit(#[trigger] s[i]),
    ensures
        decimal_value(s) >= 0,
    decreases s.len(),
{
    if s.len() > 0 {
        let t = s.drop_last();
        assert forall|i: int| 0 <= i < t.len() implies is_digit(#[trigger] t[i]) by {
            assert(t[i] == s[i]);
        }
        lemma_decimal_nonneg(t);
        assert(is_digit(s[s.len() - 1]));
    }
}

/// An integer at the start of `input`, and what follows it.
pub fn integer(input: &[u8]) -> (r: Result<(&[u8], i64), ParseError>)
    ensures
        r matches Ok((rest, v)) ==> parsed_as(input@, rest@, spec_integer(input@), v),
        r is Err <==> spec_integer(input@) is None,
{
    let len = input.len();
    let neg = len > 0 && input[0] == 45;
    let start: usize = if neg { 1 } else { 0 };
    let limit: u128 = if neg { 9223372036854775808 } else { 9223372036854775807 };
    let mut pos = start;
    let mut magnitude: u128 = 0;
    let mut overflow = false;
    assert(input@.subrange(start as int, start as int) =~= Seq::<u8>::empty());
    while pos < len && 48 <= input[pos] && input[pos] <= 57
        invariant
            len == input@.len(),
            start <= pos <= len,
            limit <= 9223372036854775808,
            forall|i: int| start <= i < pos ==> is_digit(#[trigger] input@[i]),
            !overflow ==> magnitude == decimal_value(input@.subrange(start as int, pos as int))
                && magnitude <= limit,
            overflow ==> decimal_value(input@.subrange(start as int, pos as int)) > limit,
        decreases len - pos,
    {
        let d = input[pos] - 48;
        let ghost before = input@.subrange(start as int, pos as int);
        proof {
            assert(input@.subrange(start as int, pos + 1) =~= before.push(input@[pos as int]));
            lemma_decimal_push(before, input@[pos as int]);
            lemma_decimal_nonneg(before);
        }
        if !overflow {
            let next = magnitude * 10 + d as u128;
            if next > limit {
                overflow = true;
            } else {
                magnitude = next;
            }
        }
        pos += 1;
    }
    proof {
        lemma_digit_run(input@, start as int, pos as int);
    }
    if pos == start || pos >= len || overflow {
        return Err(ParseError);
    }
    let value: i64 = if neg {
        (0i128 - magnitude as i128) as i64
    } else {
        magnitude as i64
    };
    let rest = vstd::slice::slice_subrange(input, pos, len);
    Ok((rest, value))
}

/// The bytes of a byte string at the start of `input`, and what follows it.
fn string_bytes<'a>(input: &'a [u8]) -> (r: Result<(&'a [u8], &'a [u8]), ParseError>)
    ensures
        r matches Ok((rest, bytes)) ==> parsed_as(input@, rest@, spec_string(input@), bytes@),
        r is Err <==> spec_string(input@) is None,
{
    match integer(input) {
        Err(e) => Err(e),
        Ok((rest, len)) => {
            let ghost n = input@.len() - rest@.len();
            assert(rest@.len() > 0);
            assert(rest@[0] == input@[n]);
            if rest[0] != 58 || len < 0 || len as u64 > (rest.len() - 1) as u64 {
                return Err(ParseError);
            }
            let size = len as usize;
            let bytes = vstd::slice::slice_subrange(rest, 1, 1 + size);
            let after = vstd::slice::slice_subrange(rest, 1 + size, rest.len());
            assert(bytes@ =~= input@.subrange(n + 1, n + 1 + len));
            assert(after@ =~= input@.skip(n + 1 + len));
            Ok((after, bytes))
        },
    }
}

/// A byte string value at the start of `input`, and what follows it.
pub fn bencode_string<'a>(input: &'a [u8]) -> (r: Result<(&'a [u8], BencodeValue<'a>), ParseError>)
    ensures
        r matches Ok((rest, v)) ==> parsed_as(input@, rest@, spec_string_value(input@), v.spec_view()),
        r is Err <==> spec_string_value(input@) is None,
{
    match string_bytes(input) {
        Ok((rest, bytes)) => Ok((rest, BencodeValue::String(bytes))),
        Err(e) => Err(e),
    }
}

/// A dictionary key at the start of `input`, and what follows it.
pub fn bencode_string_s<'a>(input: &'a [u8]) -> (r: Result<(&'a [u8], &'a str), ParseError>)
    ensures
        r matches Ok((rest, k)) ==> parsed_as(input@, rest@, spec_key(input@), k.spec_bytes()),
        r is Err <==> spec_key(input@) is None,
{
    match string_bytes(input) {
        Ok((rest, bytes)) => match str_from_utf8(bytes) {
            Ok(key) => Ok((rest, key)),
            Err(_) => Err(ParseError),
        },
        Err(e) => Err(e),
    }
}

/// An integer value at the start of `input`, and what follows it.
pub fn bencode_integer<'a>(input: &'a [u8]) -> (r: Result<(&'a [u8], BencodeValue<'a>), ParseError>)
    ensures
        r matches Ok((rest, v)) ==> parsed_as(input@, rest@, spec_integer_value(input@), v.spec_view()),
        r is Err <==> spec_integer_value(input@) is None,
{
    if input.len() == 0 || input[0] != 105 {
        return Err(ParseError);
    }
    let body = vstd::slice::slice_subrange(input, 1, input.len());
    assert(body@ =~= input@.skip(1));
    match integer(body) {
        Err(e) => Err(e),
        Ok((rest, v)) => {
            let ghost n = body@.len() - rest@.len();
            assert(rest@[0] == input@[n + 1]);
            if rest[0] != 101 {
                return Err(ParseError);
            }
            let after = vstd::slice::slice_subrange(rest, 1, rest.len());
            assert(after@ =~= input@.skip(n + 2));
            Ok((after, BencodeValue::Integer(v)))
        },
    }
}

proof fn lemma_blobs_view_push<'a>(items: Seq<BencodeBlob<'a>>, b: BencodeBlob<'a>)
    ensures
        blobs_view(items.push(b)) == blobs_view(items).push(b.spec_view()),
{
    assert(items.push(b).subrange(0, items.len() as int) =~= items);
}

proof fn lemma_entries_view_push<'a>(entries: Seq<(&'a str, BencodeBlob<'a>)>, e: (&'a str, BencodeBlob<'a>))
    ensures
        entries_view(entries.push(e)) == entries_view(entries).push((e.0.spec_bytes(), e.1.spec_view())),
{
    assert(entries.push(e).subrange(0, entries.len() as int) =~= entries);
}

/// The view of a list has an item per blob, each the view of that blob.
pub proof fn lemma_blobs_view_index<'a>(items: Seq<BencodeBlob<'a>>, i: int)
    requires
        0 <= i < items.len(),
    ensures
        blobs_view(items).len() == items.len(),
        blobs_view(items)[i] == items[i].spec_view(),
    decreases items.len(),
{
    let init = items.subrange(0, items.len() - 1);
    if i < items.len() - 1 {
        lemma_blobs_view_index(init, i);
    } else {
        lemma_blobs_view_len(init);
    }
}

/// The view of a list has an item per blob.
pub proof fn lemma_blobs_view_len<'a>(items: Seq<BencodeBlob<'a>>)
    ensures
        blobs_view(items).len() == items.len(),
    decreases items.len(),
{
    if items.len() > 0 {
        lemma_blobs_view_len(items.subrange(0, items.len() - 1));
    }
}

/// The view of a dictionary has an entry per entry, each its key's bytes
/// and the view of its value.
pub proof fn lemma_entries_view_index<'a>(entries: Seq<(&'a str, BencodeBlob<'a>)>, i: int)
    requires
        0 <= i < entries.len(),
    ensures
        entries_view(entries).len() == entries.len(),
        entries_view(entries)[i] == (entries[i].0.spec_bytes(), entries[i].1.spec_view()),
    decreases entries.len(),
{
    let init = entries.subrange(0, entries.len() - 1);
    if i < entries.len() - 1 {
        lemma_entries_view_index(init, i);
    } else {
        lemma_entries_view_len(init);
    }
}

/// The view of a dictionary has an entry per entry.
pub proof fn lemma_entries_view_len<'a>(entries: Seq<(&'a str, BencodeBlob<'a>)>)
    ensures
        entries_view(entries).len() == entries.len(),
    decreases entries.len(),
{
    if entries.len() > 0 {
        lemma_entries_view_len(entries.subrange(0, entries.len() - 1));
    }
}

/// The items still to come prepended with `prefix`, `consumed` bytes earlier.
pub open spec fn after_prefix<T>(prefix: Seq<T>, consumed: nat, rest: Option<(Seq<T>, nat)>) -> Option<(Seq<T>, nat)> {
    match rest {
        Some((items, m)) => Some((prefix + items, consumed + m)),
        None => None,
    }
}

/// The value at the start of `input`, with the bytes it takes, and what follows it.
pub fn parser_bencode<'a>(input: &'a [u8]) -> (r: Result<(&'a [u8], BencodeBlob<'a>), ParseError>)
    ensures
        r matches Ok((rest, b)) ==> {
            &&& parsed_as(input@, rest@, spec_value(input@), b.value.spec_view())
            &&& rest@.len() < input@.len()
            &&& b.source@ == input@.take(input@.len() - rest@.len())
        },
        r is Err <==> spec_value(input@) is None,
    decreases input@.len(), 1nat,
{
    if input.len() == 0 {
        return Err(ParseError);
    }
    let c = input[0];
    let parsed = if c == 105 {
        bencode_integer(input)
    } else if c == 108 {
        bencode_list(input)
    } else if c == 100 {
        bencode_dictionary(input)
    } else {
        bencode_string(input)
    };
    match parsed {
        Err(e) => Err(e),
        Ok((rest, value)) => {
            let n = input.len() - rest.len();
            proof {
                if c != 105 && c != 108 && c != 100 {
                    assert(n > 0);
                }
            }
            let source = vstd::slice::slice_subrange(input, 0, n);
            assert(source@ =~= input@.take(n as int));
            Ok((rest, BencodeBlob { source, value }))
        },
    }
}

/// A list at the start of `input`, and what follows it.
pub fn bencode_list<'a>(input: &'a [u8]) -> (r: Result<(&'a [u8], BencodeValue<'a>), ParseError>)
    ensures
        r matches Ok((rest, v)) ==> parsed_as(input@, rest@, spec_list(input@), v.spec_view()),
        r is Err <==> spec_list(input@) is None,
    decreases input@.len(), 0nat,
{
    if input.len() == 0 || input[0] != 108 {
        return Err(ParseError);
    }
    let ghost body = input@.skip(1);
    let mut rest = vstd::slice::slice_subrange(input, 1, input.len());
    let mut items: Vec<BencodeBlob<'a>> = Vec::new();
    let ghost mut consumed: nat = 0;
    assert(rest@ =~= body);
    assert(blobs_view(items@) =~= Seq::<SpecBlob>::empty());
    loop
        invariant
            input@.len() > 0 && input@[0] == 108,
            body == input@.skip(1),
            consumed <= body.len(),
            rest@ == body.skip(consumed as int),
            rest@.len() < input@.len(),
            rest@.len() + consumed + 1 == input@.len(),
            spec_list_items(body) == after_prefix(blobs_view(items@), consumed, spec_list_items(rest@)),
        decreases rest@.len(),
    {
        if rest.len() == 0 {
            return Err(ParseError);
        }
        if rest[0] == 101 {
            let after = vstd::slice::slice_subrange(rest, 1, rest.len());
            assert(after@ =~= input@.skip(1 + consumed + 1 as int)) by {
                assert forall|i: int| 0 <= i < after@.len() implies after@[i] == input@.skip(1 + consumed + 1 as int)[i] by {
                    assert(after@[i] == rest@[i + 1]);
                    assert(rest@[i + 1] == body[consumed + i + 1]);
                }
            }
            assert(blobs_view(items@) + Seq::<SpecBlob>::empty() =~= blobs_view(items@));
            assert(spec_list_items(rest@) == Some((Seq::<SpecBlob>::empty(), 1nat)));
            assert(spec_list_items(body) == Some((blobs_view(items@), consumed + 1)));
            let v = BencodeValue::List(items);
            assert(v.spec_view() == SpecValue::List(blobs_view(items@)));
            assert(input@[0] == 108 && input@.len() > 0);
            assert(spec_list(input@) == Some((v.spec_view(), (consumed + 2) as nat)));
            return Ok((after, v));
        }
        match parser_bencode(rest) {
            Err(e) => {
                return Err(e);
            },
            Ok((next, blob)) => {
                let ghost n = rest@.len() - next@.len();
                proof {
                    lemma_blobs_view_push(items@, blob);
                    assert(blob.spec_view() == SpecBlob { source: rest@.take(n), value: blob.value.spec_view() });
                    assert(next@ =~= body.skip(consumed + n));
                    let tail = spec_list_items(next@);
                    if let Some((is, m)) = tail {
                        assert(blobs_view(items@) + (seq![blob.spec_view()] + is) =~= blobs_view(items@).push(blob.spec_view()) + is);
                    }
                    consumed = consumed + n as nat;
                }
                items.push(blob);
                rest = next;
            },
        }
    }
}

/// A dictionary at the start of `input`, and what follows it.
#[verifier::rlimit(40)]
pub fn bencode_dictionary<'a>(input: &'a [u8]) -> (r: Result<(&'a [u8], BencodeValue<'a>), ParseError>)
    ensures
        r matches Ok((rest, v)) ==> parsed_as(input@, rest@, spec_dictionary(input@), v.spec_view()),
        r is Err <==> spec_dictionary(input@) is None,
    decreases input@.len(), 0nat,
{
    if input.len() == 0 || input[0] != 100 {
        return Err(ParseError);
    }
    let ghost body = input@.skip(1);
    let mut rest = vstd::slice::slice_subrange(input, 1, input.len());
    let mut entries: Vec<(&'a str, BencodeBlob<'a>)> = Vec::new();
    let ghost mut consumed: nat = 0;
    assert(rest@ =~= body);
    assert(entries_view(entries@) =~= Seq::<(Seq<u8>, SpecBlob)>::empty());
    loop
        invariant
            input@.len() > 0 && input@[0] == 100,
            body == input@.skip(1),
            consumed <= body.len(),
            rest@ == body.skip(consumed as int),
            rest@.len() < input@.len(),
            rest@.len() + consumed + 1 == input@.len(),
            spec_dict_entries(body) == after_prefix(entries_view(entries@), consumed, spec_dict_entries(rest@)),
        decreases rest@.len(),
    {
        if rest.len() == 0 {
            return Err(ParseError);
        }
        if rest[0] == 101 {
            let after = vstd::slice::slice_subrange(rest, 1, rest.len());
            assert(after@ =~= input@.skip(1 + consumed + 1 as int)) by {
                assert forall|i: int| 0 <= i < after@.len() implies after@[i] == input@.skip(1 + consumed + 1 as int)[i] by {
                    assert(after@[i] == rest@[i + 1]);
                    assert(rest@[i + 1] == body[consumed + i + 1]);
                }
            }
            assert(entries_view(entries@) + Seq::<(Seq<u8>, SpecBlob)>::empty() =~= entries_view(entries@));
            assert(spec_dict_entries(rest@) == Some((Seq::<(Seq<u8>, SpecBlob)>::empty(), 1nat)));
            assert(spec_dict_entries(body) == Some((entries_view(entries@), consumed + 1)));
            let v = BencodeValue::Dictionary(entries);
            assert(v.spec_view() == SpecValue::Dictionary(entries_view(entries@)));
            assert(input@[0] == 100 && input@.len() > 0);
            assert(spec_dictionary(input@) == Some((v.spec_view(), (consumed + 2) as nat)));
            return Ok((after, v));
        }
        match bencode_string_s(rest) {
            Err(e) => {
                return Err(e);
            },
            Ok((after_key, key)) => {
                let ghost k = rest@.len() - after_key@.len();
                assert(k > 0) by {
                    assert(rest@[0] != 101);
                }
                match parser_bencode(after_key) {
                    Err(e) => {
                        return Err(e);
                    },
                    Ok((next, blob)) => {
                        let ghost n = after_key@.len() - next@.len();
                        proof {
                            lemma_entries_view_push(entries@, (key, blob));
                            assert(blob.spec_view() == SpecBlob { source: after_key@.take(n), value: blob.value.spec_view() });
                            assert(after_key@ =~= rest@.skip(k));
                            assert(next@ =~= body.skip(consumed + k + n));
                            assert(next@ =~= after_key@.skip(n));
                            let tail = spec_dict_entries(next@);
                            if let Some((es, m)) = tail {
                                assert(entries_view(entries@) + (seq![(key.spec_bytes(), blob.spec_view())] + es)
                                    =~= entries_view(entries@).push((key.spec_bytes(), blob.spec_view())) + es);
                            }
                            consumed = consumed + (k + n) as nat;
                        }
                        entries.push((key, blob));
                        rest = next;
                    },
                }
            },
        }
    }
}

/// The value at the start of `bytes`, which must hold one.
pub fn parse_bencode<'a>(bytes: &'a [u8]) -> (b: BencodeBlob<'a>)
    requires
        spec_value(bytes@) is Some,
    ensures
        spec_value(bytes@) == Some((b.value.spec_view(), b.source@.len())),
        b.source@ == bytes@.take(b.source@.len() as int),
{
    match parser_bencode(bytes) {
        Ok((_, blob)) => blob,
        Err(_) => {
            assert(false);
            BencodeBlob { source: bytes, value: BencodeValue::Integer(0) }
        },
    }
}

} // verus!
