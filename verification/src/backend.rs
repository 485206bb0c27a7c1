//! The values the web backend hands out about downloads, and the byte range
//! a file download asks for in its `Range` header.

use std::num::ParseIntError;
use std::ops::Range;
use vstd::prelude::*;
use crate::announce::is_word;
use crate::bencode::{decimal_value, is_digit};
use vstd::string::{StrSliceExecFns, StringExecFns, StringSliceAdditionalSpecFns};

verus! {

/// Where a user who logged in is sent: only the user whose email is
/// `allowed` is let in (`None` refuses the login), and is sent to the UI
/// host `ui_host` followed by the `state` the login started from, or `/`.
pub fn login_redirect(email: Option<&str>, allowed: &str, ui_host: &str, state: Option<&str>) -> (r: Option<String>)
    ensures
        r is Some <==> (email matches Some(e) && e@ == allowed@),
        r matches Some(url) ==> url@ == ui_host@ + match state {
            Some(s) => s@,
            None => "/"@,
        },
{
    let allowed_user = match email {
        Some(e) => is_word(e, allowed),
        None => false,
    };
    if !allowed_user {
        return None;
    }
    let mut url = String::from_str(ui_host);
    match state {
        Some(s) => url.append(s),
        None => url.append("/"),
    }
    Some(url)
}

/// One download as the backend lists it.
pub struct BackendTorrentDownload {
    pub id: usize,
    pub name: String,
    pub received: usize,
    pub uploaded: usize,
    pub length: usize,
    pub active: bool,
}

/// The details of one download; there are none yet.
pub struct BackendTorrentDownloadDetail {}

/// The digits of an unsigned decimal number: what follows a leading `+`.
pub open spec fn unsigned_digits(s: Seq<u8>) -> Seq<u8> {
    if s.len() > 0 && s[0] == 43 {
        s.drop_first()
    } else {
        s
    }
}

/// Every byte of `d` is an ASCII digit.
pub open spec fn all_digits(d: Seq<u8>) -> bool {
    forall|i: int| 0 <= i < d.len() ==> is_digit(#[trigger] d[i])
}

/// The value of an unsigned decimal number as `str::parse::<usize>` reads
/// it: an optional `+`, then one or more ASCII digits, the value at most
/// `usize::MAX`.
pub open spec fn parse_unsigned(s: Seq<u8>) -> Option<int> {
    let digits = unsigned_digits(s);
    if s.len() > 0 && digits.len() > 0 && all_digits(digits) && decimal_value(digits) <= usize::MAX {
        Some(decimal_value(digits))
    } else {
        None
    }
}

/// The prefix of a byte range header value: `bytes=`.
pub open spec fn range_prefix() -> Seq<u8> {
    seq![98u8, 121u8, 116u8, 101u8, 115u8, 61u8]
}

/// `k` is the position of the one `-` in `s`.
pub open spec fn sole_dash(s: Seq<u8>, k: int) -> bool {
    &&& 0 <= k < s.len()
    &&& s[k] == 45
    &&& forall|j: int| 0 <= j < s.len() && j != k ==> #[trigger] s[j] != 45
}

/// The first and last byte that a `Range` header value asks for: `bytes=`,
/// then two unsigned numbers separated by the one `-` that follows.
pub open spec fn spec_range_bounds(h: Seq<u8>) -> Option<(int, int)> {
    if h.len() >= 6 && h.take(6) == range_prefix() {
        let rest = h.skip(6);
        if exists|k: int| sole_dash(rest, k) {
            let k = choose|k: int| sole_dash(rest, k);
            match (parse_unsigned(rest.take(k)), parse_unsigned(rest.skip(k + 1))) {
                (Some(a), Some(b)) => Some((a, b)),
                _ => None,
            }
        } else {
            None
        }
    } else {
        None
    }
}

proof fn lemma_decimal_step(s: Seq<u8>, d: u8)
    requires
        is_digit(d),
        forall|i: int| 0 <= i < s.len() ==> is_digit(#[trigger] s[i]),
    ensures
        decimal_value(s.push(d)) == decimal_value(s) * 10 + (d - 48),
        decimal_value(s.push(d)) >= decimal_value(s),
        decimal_value(s) >= 0,
    decreases s.len(),
{
    assert(s.push(d).drop_last() =~= s);
    if s.len() > 0 {
        let t = s.drop_last();
        assert forall|i: int| 0 <= i < t.len() implies is_digit(#[trigger] t[i]) by {
            assert(t[i] == s[i]);
        }
        lemma_decimal_step(t, s.last());
        assert(t.push(s.last()) =~= s);
    }
}

proof fn lemma_decimal_grows(s: Seq<u8>, j: int)
    requires
        0 <= j <= s.len(),
        forall|i: int| 0 <= i < s.len() ==> is_digit(#[trigger] s[i]),
    ensures
        decimal_value(s) >= decimal_value(s.take(j)),
    decreases s.len() - j,
{
    if j < s.len() {
        let t = s.take(j + 1);
        assert(s.take(j) =~= t.drop_last());
        assert(t =~= s.take(j).push(s[j]));
        assert forall|i: int| 0 <= i < s.take(j).len() implies is_digit(#[trigger] s.take(j)[i]) by {
            assert(s.take(j)[i] == s[i]);
        }
        lemma_decimal_step(s.take(j), s[j]);
        lemma_decimal_grows(s, j + 1);
    } else {
        assert(s.take(j) =~= s);
    }
}

/// `s` read as `str::parse::<usize>` reads it.
fn parse_unsigned_bytes(s: &[u8]) -> (r: Option<usize>)
    ensures
        match r {
            Some(v) => parse_unsigned(s@) == Some(v as int),
            None => parse_unsigned(s@) is None,
        },
{
    let len = s.len();
    if len == 0 {
        return None;
    }
    let start: usize = if s[0] == 43 { 1 } else { 0 };
    let ghost digits = unsigned_digits(s@);
    assert(digits =~= s@.skip(start as int));
    if start == len {
        return None;
    }
    let mut pos = start;
    let mut value: usize = 0;
    assert(digits.take(0) =~= Seq::<u8>::empty());
    while pos < len
        invariant
            len == s@.len(),
            start <= pos <= len,
            digits == s@.skip(start as int),
            len > 0,
            digits == unsigned_digits(s@),
            digits.len() > 0,
            forall|i: int| 0 <= i < pos - start ==> is_digit(#[trigger] digits[i]),
            value == decimal_value(digits.take(pos - start)),
        decreases len - pos,
    {
        let b = s[pos];
        if b < 48 || b > 57 {
            assert(!is_digit(digits[pos - start]));
            return None;
        }
        let ghost before = digits.take(pos - start);
        proof {
            assert(digits.take(pos - start + 1) =~= before.push(b));
            assert forall|i: int| 0 <= i < before.len() implies is_digit(#[trigger] before[i]) by {
                assert(before[i] == digits[i]);
            }
            lemma_decimal_step(before, b);
        }
        let d: usize = (b - 48) as usize;
        if value > (usize::MAX - d) / 10 {
            proof {
                assert(decimal_value(digits.take(pos - start + 1)) > usize::MAX) by (nonlinear_arith)
                    requires
                        decimal_value(digits.take(pos - start + 1)) == value * 10 + d,
                        value > (usize::MAX - d) / 10,
                        d <= 9;
                if all_digits(digits) {
                    lemma_decimal_grows(digits, pos - start + 1);
                }
            }
            return None;
        }
        proof {
            assert(value * 10 + d <= usize::MAX) by (nonlinear_arith)
                requires
                    value <= (usize::MAX - d) / 10,
                    d <= 9;
        }
        value = value * 10 + d;
        pos += 1;
    }
    assert(digits.take(pos - start) =~= digits);
    Some(value)
}

/// The first and last byte that the `Range` header value `header` asks for,
/// when it has the form `bytes=<first>-<last>`.
pub fn range_bounds(header: &str) -> (r: Option<(usize, usize)>)
    ensures
        match r {
            Some((a, b)) => spec_range_bounds(header.spec_bytes()) == Some((a as int, b as int)),
            None => spec_range_bounds(header.spec_bytes()) is None,
        },
{
    let h = header.as_bytes();
    let len = h.len();
    if len < 6 || h[0] != 98 || h[1] != 121 || h[2] != 116 || h[3] != 101 || h[4] != 115 || h[5] != 61 {
        proof {
            if len >= 6 && h@.take(6) == range_prefix() {
                assert(h@.take(6)[0] == h@[0]);
                assert(h@.take(6)[1] == h@[1]);
                assert(h@.take(6)[2] == h@[2]);
                assert(h@.take(6)[3] == h@[3]);
                assert(h@.take(6)[4] == h@[4]);
                assert(h@.take(6)[5] == h@[5]);
            }
        }
        return None;
    }
    assert(h@.take(6) =~= range_prefix());
    let rest = vstd::slice::slice_subrange(h, 6, len);
    assert(rest@ =~= h@.skip(6));
    let n = rest.len();
    let mut dashes: usize = 0;
    let mut at: usize = 0;
    let mut i: usize = 0;
    while i < n
        invariant
            n == rest@.len(),
            i <= n,
            dashes <= i,
            dashes == 0 ==> forall|j: int| 0 <= j < i ==> #[trigger] rest@[j] != 45,
            dashes >= 1 ==> at < i && rest@[at as int] == 45,
            dashes == 1 ==> forall|j: int| 0 <= j < i && j != at ==> #[trigger] rest@[j] != 45,
            dashes >= 2 ==> exists|j: int| 0 <= j < i && j != at && #[trigger] rest@[j] == 45,
        decreases n - i,
    {
        if rest[i] == 45 {
            if dashes == 0 {
                at = i;
            }
            if dashes < 2 {
                dashes = dashes + 1;
            }
        }
        i = i + 1;
    }
    if dashes != 1 {
        proof {
            if exists|k: int| sole_dash(rest@, k) {
                let k = choose|k: int| sole_dash(rest@, k);
                if dashes == 0 {
                    assert(rest@[k] != 45);
                } else {
                    let j = choose|j: int| 0 <= j < n && j != at && #[trigger] rest@[j] == 45;
                    assert(j == k);
                    assert(at as int == k);
                }
            }
        }
        return None;
    }
    assert(sole_dash(rest@, at as int));
    proof {
        let k = choose|k: int| sole_dash(rest@, k);
        assert(k == at);
    }
    let first = vstd::slice::slice_subrange(rest, 0, at);
    let last = vstd::slice::slice_subrange(rest, at + 1, n);
    assert(first@ =~= rest@.take(at as int));
    assert(last@ =~= rest@.skip(at + 1));
    match (parse_unsigned_bytes(first), parse_unsigned_bytes(last)) {
        (Some(a), Some(b)) => Some((a, b)),
        _ => None,
    }
}

/// The byte range that the `Range` header value `header` asks for, end
/// exclusive, when it has the form `bytes=<first>-<last>`.
pub fn range(header: &str) -> (r: Option<Range<usize>>)
    requires
        spec_range_bounds(header.spec_bytes()) matches Some((_, b)) ==> b < usize::MAX,
    ensures
        match spec_range_bounds(header.spec_bytes()) {
            Some((a, b)) => r matches Some(x) && x.start == a && x.end == b + 1,
            None => r is None,
        },
{
    match range_bounds(header) {
        Some((start, last)) => Some(Range { start, end: last + 1 }),
        None => None,
    }
}

/// Why a number could not be read.
#[verifier::external_type_specification]
#[verifier::external_body]
pub struct ExParseIntError(ParseIntError);

/// The pairs of a query string as `url::form_urlencoded::parse` decodes them.
pub uninterp spec fn form_pairs(query: Seq<u8>) -> Seq<(Seq<char>, Seq<char>)>;

/// The character views of the strings `v`.
pub open spec fn strings_of(v: Seq<String>) -> Seq<Seq<char>> {
    v.map_values(|s: String| s@)
}

/// The character views of the pairs `v`.
pub open spec fn pairs_view(v: Seq<(String, String)>) -> Seq<(Seq<char>, Seq<char>)> {
    v.map_values(|p: (String, String)| (p.0@, p.1@))
}

/// `url::form_urlencoded::parse`: the key and value pairs of the query
/// string `query`, which depend on `query` alone.
#[verifier::external_body]
fn parse_query(query: &[u8]) -> (r: Vec<(String, String)>)
    ensures
        pairs_view(r@) == form_pairs(query@),
{
    url::form_urlencoded::parse(query).into_owned().collect()
}

/// `str::parse::<usize>`: the number `s` spells, an optional `+` and one or
/// more ASCII digits, when it fits in a `usize`.
#[verifier::external_body]
fn parse_usize(s: &str) -> (r: Result<usize, ParseIntError>)
    ensures
        match r {
            Ok(v) => parse_unsigned(s.spec_bytes()) == Some(v as int),
            Err(_) => parse_unsigned(s.spec_bytes()) is None,
        },
{
    s.parse::<usize>()
}

/// Which page of a list to show and how: the page, its size, and the
/// fields to sort by.
#[derive(Debug)]
pub struct Paging {
    pub page: Option<usize>,
    pub size: Option<usize>,
    pub sort: Vec<String>,
}

/// Why a query string does not describe a page.
#[derive(Debug)]
pub enum PagingError {
    /// The page is not a number.
    Page(ParseIntError),
    /// The size is not a number.
    Size(ParseIntError),
    /// The key is not one of `page`, `size` and `sort`.
    UnexpectedKey(String),
}

/// Which of the paging keys failed, as the contracts see it.
pub enum PagingFailure {
    Page,
    Size,
    UnexpectedKey(Seq<char>),
}

/// The page, size and sort fields that the pairs `pairs` give, in order:
/// `page` and `size` take the number of their value, the last one counting;
/// every `sort` adds a field; any other key, or a value that is not a
/// number, is refused.
pub open spec fn spec_paging(pairs: Seq<(Seq<char>, Seq<char>)>) -> Result<
    (Option<usize>, Option<usize>, Seq<Seq<char>>),
    PagingFailure,
>
    decreases pairs.len(),
{
    if pairs.len() == 0 {
        Ok((None, None, seq![]))
    } else {
        match spec_paging(pairs.drop_last()) {
            Err(e) => Err(e),
            Ok((page, size, sort)) => {
                let (key, value) = pairs.last();
                if key == seq!['p', 'a', 'g', 'e'] {
                    match parse_unsigned(vstd::utf8::encode_utf8(value)) {
                        Some(n) => Ok((Some(n as usize), size, sort)),
                        None => Err(PagingFailure::Page),
                    }
                } else if key == seq!['s', 'i', 'z', 'e'] {
                    match parse_unsigned(vstd::utf8::encode_utf8(value)) {
                        Some(n) => Ok((page, Some(n as usize), sort)),
                        None => Err(PagingFailure::Size),
                    }
                } else if key == seq!['s', 'o', 'r', 't'] {
                    Ok((page, size, sort.push(value)))
                } else {
                    Err(PagingFailure::UnexpectedKey(key))
                }
            },
        }
    }
}

proof fn lemma_paging_error_persists(pairs: Seq<(Seq<char>, Seq<char>)>, j: int)
    requires
        0 <= j <= pairs.len(),
        spec_paging(pairs.take(j)) is Err,
    ensures
        spec_paging(pairs) == spec_paging(pairs.take(j)),
    decreases pairs.len() - j,
{
    if j == pairs.len() {
        assert(pairs.take(j) =~= pairs);
    } else {
        assert(pairs.take(j + 1).drop_last() =~= pairs.take(j));
        lemma_paging_error_persists(pairs, j + 1);
    }
}

/// Whether `s` holds exactly the characters of `w`.
fn is_key(s: &str, w: &str) -> (r: bool)
    ensures
        r == (s@ == w@),
{
    let n = s.unicode_len();
    if n != w.unicode_len() {
        return false;
    }
    let mut i: usize = 0;
    while i < n
        invariant
            n == s@.len(),
            n == w@.len(),
            i <= n,
            forall|j: int| 0 <= j < i ==> s@[j] == w@[j],
        decreases n - i,
    {
        if s.get_char(i) != w.get_char(i) {
            return false;
        }
        i += 1;
    }
    assert(s@ =~= w@);
    true
}

/// The page that the decoded query pairs `pairs` describe; see
/// `spec_paging`.
pub fn paging_from_pairs(pairs: Vec<(String, String)>) -> (r: Result<Paging, PagingError>)
    ensures
        match spec_paging(pairs_view(pairs@)) {
            Ok((page, size, sort)) => r matches Ok(p) && p.page == page && p.size == size && strings_of(p.sort@)
                == sort,
            Err(PagingFailure::Page) => r matches Err(PagingError::Page(_)),
            Err(PagingFailure::Size) => r matches Err(PagingError::Size(_)),
            Err(PagingFailure::UnexpectedKey(k)) => r matches Err(PagingError::UnexpectedKey(s)) && s@ == k,
        },
{
    let mut page: Option<usize> = None;
    let mut size: Option<usize> = None;
    let mut sort: Vec<String> = Vec::new();
    let ghost all = pairs_view(pairs@);
    let n = pairs.len();
    proof {
        reveal_strlit("page");
        reveal_strlit("size");
        reveal_strlit("sort");
        assert("page"@ =~= seq!['p', 'a', 'g', 'e']);
        assert("size"@ =~= seq!['s', 'i', 'z', 'e']);
        assert("sort"@ =~= seq!['s', 'o', 'r', 't']);
    }
    let mut i: usize = 0;
    assert(all.take(0) =~= Seq::<(Seq<char>, Seq<char>)>::empty());
    assert(strings_of(sort@) =~= Seq::<Seq<char>>::empty());
    while i < n
        invariant
            n == all.len(),
            i <= n,
            all == pairs_view(pairs@),
            "page"@ == seq!['p', 'a', 'g', 'e'],
            "size"@ == seq!['s', 'i', 'z', 'e'],
            "sort"@ == seq!['s', 'o', 'r', 't'],
            spec_paging(all.take(i as int)) == Ok::<_, PagingFailure>((page, size, strings_of(sort@))),
        decreases n - i,
    {
        assert(all.take(i + 1).drop_last() =~= all.take(i as int));
        assert(all.take(i + 1).last() == all[i as int]);
        let key = pairs[i].0.as_str();
        let value = pairs[i].1.as_str();
        assert(all[i as int] == (key@, value@));
        if is_key(key, "page") {
            match parse_usize(value) {
                Ok(v) => {
                    page = Some(v);
                },
                Err(e) => {
                    proof {
                        lemma_paging_error_persists(all, i + 1);
                    }
                    return Err(PagingError::Page(e));
                },
            }
        } else if is_key(key, "size") {
            match parse_usize(value) {
                Ok(v) => {
                    size = Some(v);
                },
                Err(e) => {
                    proof {
                        lemma_paging_error_persists(all, i + 1);
                    }
                    return Err(PagingError::Size(e));
                },
            }
        } else if is_key(key, "sort") {
            let ghost before = sort@;
            sort.push(value.to_owned());
            assert(strings_of(sort@) =~= strings_of(before).push(value@));
        } else {
            proof {
                lemma_paging_error_persists(all, i + 1);
            }
            return Err(PagingError::UnexpectedKey(key.to_owned()));
        }
        i += 1;
    }
    assert(all.take(n as int) =~= all);
    Ok(Paging { page, size, sort })
}

/// The page that the query string `query` describes: its pairs, decoded,
/// read by `paging_from_pairs`.
pub fn paging_from_query(query: &[u8]) -> (r: Result<Paging, PagingError>)
    ensures
        match spec_paging(form_pairs(query@)) {
            Ok((page, size, sort)) => r matches Ok(p) && p.page == page && p.size == size && strings_of(p.sort@)
                == sort,
            Err(PagingFailure::Page) => r matches Err(PagingError::Page(_)),
            Err(PagingFailure::Size) => r matches Err(PagingError::Size(_)),
            Err(PagingFailure::UnexpectedKey(k)) => r matches Err(PagingError::UnexpectedKey(s)) && s@ == k,
        },
{
    let pairs = parse_query(query);
    paging_from_pairs(pairs)
}

/// A field that downloads are listed by.
#[derive(Debug, Clone, Copy, PartialEq, Eq, Structural)]
pub enum SortField {
    Id,
    Name,
}

/// One level of the order of a list: a field, ascending or descending.
#[derive(Debug, Clone, Copy, PartialEq, Eq, Structural)]
pub struct SortKey {
    pub field: SortField,
    pub descending: bool,
}

/// `k` is where the first `,` of `s` is.
pub open spec fn first_comma(s: Seq<char>, k: int) -> bool {
    &&& 0 <= k < s.len()
    &&& s[k] == ','
    &&& forall|j: int| 0 <= j < k ==> #[trigger] s[j] != ','
}

/// What comes before the first `,` of `s`, or all of it.
pub open spec fn before_comma(s: Seq<char>) -> Seq<char> {
    if exists|k: int| first_comma(s, k) {
        s.take(choose|k: int| first_comma(s, k))
    } else {
        s
    }
}

/// The sort entry `entry`, `<field>` or `<field>,<order>[,...]`: the field
/// is `id` or `name`, and the order is descending when it is `desc`.
pub open spec fn sort_key_of(entry: Seq<char>) -> Option<SortKey> {
    let field = before_comma(entry);
    let descending = exists|k: int|
        first_comma(entry, k) && #[trigger] before_comma(entry.skip(k + 1)) == seq!['d', 'e', 's', 'c'];
    if field == seq!['i', 'd'] {
        Some(SortKey { field: SortField::Id, descending })
    } else if field == seq!['n', 'a', 'm', 'e'] {
        Some(SortKey { field: SortField::Name, descending })
    } else {
        None
    }
}

/// `-1`, `0` or `1` as `a` is below, equal to or above `b`.
pub open spec fn compare_ints(a: int, b: int) -> int {
    if a < b {
        -1
    } else if a == b {
        0
    } else {
        1
    }
}

/// The order of two strings, character by character.
pub open spec fn compare_chars(a: Seq<char>, b: Seq<char>) -> int
    decreases a.len(),
{
    if a.len() == 0 || b.len() == 0 {
        compare_ints(a.len() as int, b.len() as int)
    } else if a[0] != b[0] {
        compare_ints(a[0] as int, b[0] as int)
    } else {
        compare_chars(a.drop_first(), b.drop_first())
    }
}

/// The order of two downloads by one key.
pub open spec fn compare_by_key(a: BackendTorrentDownload, b: BackendTorrentDownload, key: SortKey) -> int {
    let c = match key.field {
        SortField::Id => compare_ints(a.id as int, b.id as int),
        SortField::Name => compare_chars(a.name@, b.name@),
    };
    if key.descending {
        -c
    } else {
        c
    }
}

/// The order of two downloads by `keys`: the first key that tells them
/// apart decides.
pub open spec fn compare_by_keys(a: BackendTorrentDownload, b: BackendTorrentDownload, keys: Seq<SortKey>) -> int
    decreases keys.len(),
{
    if keys.len() == 0 {
        0
    } else if compare_by_key(a, b, keys[0]) != 0 {
        compare_by_key(a, b, keys[0])
    } else {
        compare_by_keys(a, b, keys.drop_first())
    }
}

/// `x` put into the ordered `s` after every download that does not come
/// after it.
pub open spec fn insert_ordered(s: Seq<BackendTorrentDownload>, x: BackendTorrentDownload, keys: Seq<SortKey>) -> Seq<
    BackendTorrentDownload,
>
    decreases s.len(),
{
    if s.len() == 0 {
        seq![x]
    } else if compare_by_keys(s.last(), x, keys) > 0 {
        insert_ordered(s.drop_last(), x, keys).push(s.last())
    } else {
        s.push(x)
    }
}

/// `items` ordered by `keys`, those that `keys` do not tell apart kept in
/// their order.
pub open spec fn stable_sorted(items: Seq<BackendTorrentDownload>, keys: Seq<SortKey>) -> Seq<
    BackendTorrentDownload,
>
    decreases items.len(),
{
    if items.len() == 0 {
        seq![]
    } else {
        insert_ordered(stable_sorted(items.drop_last(), keys), items.last(), keys)
    }
}

/// The position of the first `,` of `s`, if it has one.
fn find_comma(s: &str) -> (r: Option<usize>)
    ensures
        match r {
            Some(k) => first_comma(s@, k as int),
            None => !exists|k: int| first_comma(s@, k),
        },
{
    let n = s.unicode_len();
    let mut k: usize = 0;
    while k < n
        invariant
            n == s@.len(),
            k <= n,
            forall|j: int| 0 <= j < k ==> #[trigger] s@[j] != ',',
        decreases n - k,
    {
        if s.get_char(k) == ',' {
            return Some(k);
        }
        k += 1;
    }
    None
}

proof fn lemma_first_comma_unique(s: Seq<char>, k: int)
    requires
        first_comma(s, k),
    ensures
        (choose|j: int| first_comma(s, j)) == k,
{
    let j = choose|j: int| first_comma(s, j);
    if j < k {
        assert(s[j] != ',');
    } else if k < j {
        assert(s[k] != ',');
    }
}

/// What comes before the first `,` of `s`, or all of it.
fn head_before_comma(s: &str) -> (r: &str)
    ensures
        r@ == before_comma(s@),
{
    match find_comma(s) {
        Some(k) => {
            proof {
                lemma_first_comma_unique(s@, k as int);
            }
            s.substring_char(0, k)
        },
        None => s,
    }
}

/// The field and order that the sort entry `entry` names, `None` when the
/// field is neither `id` nor `name`.
pub fn parse_sort_key(entry: &str) -> (r: Option<SortKey>)
    ensures
        r == sort_key_of(entry@),
{
    let field = head_before_comma(entry);
    let descending = match find_comma(entry) {
        Some(k) => {
            let n = entry.unicode_len();
            let rest = entry.substring_char(k + 1, n);
            assert(rest@ =~= entry@.skip(k + 1));
            let order = head_before_comma(rest);
            proof {
                reveal_strlit("desc");
                assert("desc"@ =~= seq!['d', 'e', 's', 'c']);
                if exists|j: int| first_comma(entry@, j) && #[trigger] before_comma(entry@.skip(j + 1)) == seq![
                    'd',
                    'e',
                    's',
                    'c',
                ] {
                    let j = choose|j: int| first_comma(entry@, j) && #[trigger] before_comma(entry@.skip(j + 1))
                        == seq!['d', 'e', 's', 'c'];
                    lemma_first_comma_unique(entry@, j);
                    lemma_first_comma_unique(entry@, k as int);
                }
            }
            is_key(order, "desc")
        },
        None => false,
    };
    proof {
        reveal_strlit("id");
        reveal_strlit("name");
        assert("id"@ =~= seq!['i', 'd']);
        assert("name"@ =~= seq!['n', 'a', 'm', 'e']);
    }
    if is_key(field, "id") {
        Some(SortKey { field: SortField::Id, descending })
    } else if is_key(field, "name") {
        Some(SortKey { field: SortField::Name, descending })
    } else {
        None
    }
}

/// The order of two strings, character by character.
fn compare_strings(a: &str, b: &str) -> (r: i8)
    ensures
        r as int == compare_chars(a@, b@),
        -1 <= r <= 1,
{
    let n = a.unicode_len();
    let m = b.unicode_len();
    let mut i: usize = 0;
    assert(a@.skip(0) =~= a@);
    assert(b@.skip(0) =~= b@);
    while i < n && i < m
        invariant
            n == a@.len(),
            m == b@.len(),
            i <= n,
            i <= m,
            compare_chars(a@, b@) == compare_chars(a@.skip(i as int), b@.skip(i as int)),
        decreases n - i,
    {
        let x = a.get_char(i);
        let y = b.get_char(i);
        assert(a@.skip(i as int)[0] == x && b@.skip(i as int)[0] == y);
        if x != y {
            return if (x as u32) < (y as u32) {
                -1
            } else {
                1
            };
        }
        assert(a@.skip(i as int).drop_first() =~= a@.skip(i + 1));
        assert(b@.skip(i as int).drop_first() =~= b@.skip(i + 1));
        i += 1;
    }
    if n < m {
        -1
    } else if n == m {
        0
    } else {
        1
    }
}

/// The order of two downloads by `keys`.
fn compare_downloads(a: &BackendTorrentDownload, b: &BackendTorrentDownload, keys: &[SortKey]) -> (r: i8)
    ensures
        r as int == compare_by_keys(*a, *b, keys@),
{
    let mut i: usize = 0;
    assert(keys@.skip(0) =~= keys@);
    while i < keys.len()
        invariant
            i <= keys@.len(),
            compare_by_keys(*a, *b, keys@) == compare_by_keys(*a, *b, keys@.skip(i as int)),
        decreases keys@.len() - i,
    {
        let key = keys[i];
        let c: i8 = match key.field {
            SortField::Id => if a.id < b.id {
                -1
            } else if a.id == b.id {
                0
            } else {
                1
            },
            SortField::Name => compare_strings(a.name.as_str(), b.name.as_str()),
        };
        let c: i8 = if key.descending {
            -c
        } else {
            c
        };
        assert(keys@.skip(i as int)[0] == key);
        if c != 0 {
            return c;
        }
        assert(keys@.skip(i as int).drop_first() =~= keys@.skip(i + 1));
        i += 1;
    }
    0
}

proof fn lemma_insert_ordered_at(s: Seq<BackendTorrentDownload>, x: BackendTorrentDownload, keys: Seq<SortKey>, p: int)
    requires
        0 <= p <= s.len(),
        forall|j: int| p <= j < s.len() ==> compare_by_keys(#[trigger] s[j], x, keys) > 0,
        p == 0 || compare_by_keys(s[p - 1], x, keys) <= 0,
    ensures
        insert_ordered(s, x, keys) == s.insert(p, x),
    decreases s.len(),
{
    if s.len() == p {
        if p == 0 {
            assert(s.insert(p, x) =~= seq![x]);
        } else {
            assert(s.insert(p, x) =~= s.push(x));
        }
    } else {
        let t = s.drop_last();
        assert forall|j: int| p <= j < t.len() implies compare_by_keys(#[trigger] t[j], x, keys) > 0 by {
            assert(t[j] == s[j]);
        }
        if p > 0 {
            assert(t[p - 1] == s[p - 1]);
        }
        lemma_insert_ordered_at(t, x, keys, p);
        assert(compare_by_keys(s.last(), x, keys) > 0);
        assert(t.insert(p, x).push(s.last()) =~= s.insert(p, x));
    }
}

/// `items` ordered by `keys`, those that `keys` do not tell apart kept in
/// their order.
pub fn sort_downloads(items: Vec<BackendTorrentDownload>, keys: &[SortKey]) -> (r: Vec<BackendTorrentDownload>)
    ensures
        r@ == stable_sorted(items@, keys@),
{
    let ghost all = items@;
    let mut rest = items;
    let mut sorted: Vec<BackendTorrentDownload> = Vec::new();
    let mut i: usize = 0;
    let n = rest.len();
    assert(all.take(0) =~= Seq::<BackendTorrentDownload>::empty());
    while i < n
        invariant
            n == all.len(),
            i <= n,
            rest@ == all.skip(i as int),
            sorted@ == stable_sorted(all.take(i as int), keys@),
            sorted@.len() == i,
        decreases n - i,
    {
        let x = rest.remove(0);
        assert(x == all[i as int]);
        assert(rest@ =~= all.skip(i + 1));
        let mut p = sorted.len();
        while p > 0 && compare_downloads(&sorted[p - 1], &x, keys) > 0
            invariant
                p <= sorted@.len(),
                forall|j: int| p <= j < sorted@.len() ==> compare_by_keys(#[trigger] sorted@[j], x, keys@) > 0,
            decreases p,
        {
            p -= 1;
        }
        proof {
            lemma_insert_ordered_at(sorted@, x, keys@, p as int);
            assert(all.take(i + 1).drop_last() =~= all.take(i as int));
            assert(all.take(i + 1).last() == x);
        }
        sorted.insert(p, x);
        i += 1;
    }
    assert(all.take(n as int) =~= all);
    sorted
}

/// The downloads of page `page` (the first when none is given) of `size`
/// downloads (twenty when none is given) of `items` ordered by `keys`.
pub open spec fn listed_page(
    items: Seq<BackendTorrentDownload>,
    keys: Seq<SortKey>,
    page: Option<usize>,
    size: Option<usize>,
) -> Seq<BackendTorrentDownload> {
    let sorted = stable_sorted(items, keys);
    let size = match size {
        Some(s) => s as int,
        None => 20,
    };
    let start = match page {
        Some(p) => p as int,
        None => 0,
    } * size;
    let from = if start < sorted.len() { start } else { sorted.len() as int };
    let to = if from + size < sorted.len() { from + size } else { sorted.len() as int };
    sorted.subrange(from, to)
}

/// The page of downloads that `paging` asks for: ordered by its sort
/// entries, then cut to the page.
pub fn torrent_list_page(items: Vec<BackendTorrentDownload>, paging: &Paging) -> (r: Vec<BackendTorrentDownload>)
    requires
        forall|i: int| 0 <= i < paging.sort@.len() ==> sort_key_of(#[trigger] paging.sort@[i]@) is Some,
        (match paging.page {
            Some(p) => p as int,
            None => 0,
        }) * (match paging.size {
            Some(s) => s as int,
            None => 20,
        }) <= usize::MAX,
    ensures
        ({
            let keys = paging.sort@.map_values(|e: String| sort_key_of(e@)->0);
            r@ == listed_page(items@, keys, paging.page, paging.size)
        }),
{
    let ghost keys_spec = paging.sort@.map_values(|e: String| sort_key_of(e@)->0);
    let mut keys: Vec<SortKey> = Vec::new();
    let mut i: usize = 0;
    while i < paging.sort.len()
        invariant
            i <= paging.sort@.len(),
            forall|j: int| 0 <= j < paging.sort@.len() ==> sort_key_of(#[trigger] paging.sort@[j]@) is Some,
            keys@ == keys_spec.take(i as int),
            keys_spec == paging.sort@.map_values(|e: String| sort_key_of(e@)->0),
        decreases paging.sort@.len() - i,
    {
        let key = match parse_sort_key(paging.sort[i].as_str()) {
            Some(k) => k,
            None => {
                assert(false);
                SortKey { field: SortField::Id, descending: false }
            },
        };
        keys.push(key);
        assert(keys@ =~= keys_spec.take(i + 1));
        i += 1;
    }
    assert(keys_spec.take(i as int) =~= keys_spec);
    let mut sorted = sort_downloads(items, keys.as_slice());
    let page: usize = match paging.page {
        Some(p) => p,
        None => 0,
    };
    let size: usize = match paging.size {
        Some(s) => s,
        None => 20,
    };
    let start = page * size;
    let from = if start < sorted.len() {
        start
    } else {
        sorted.len()
    };
    let mut tail = sorted.split_off(from);
    tail.truncate(size);
    tail
}

proof fn lemma_compare_ints(a: int, b: int, c: int)
    ensures
        compare_ints(a, b) == -compare_ints(b, a),
        -1 <= compare_ints(a, b) <= 1,
        compare_ints(a, b) <= 0 && compare_ints(b, c) <= 0 ==> compare_ints(a, c) <= 0,
{
}

proof fn lemma_compare_chars(a: Seq<char>, b: Seq<char>, c: Seq<char>)
    ensures
        compare_chars(a, b) == -compare_chars(b, a),
        -1 <= compare_chars(a, b) <= 1,
        compare_chars(a, b) <= 0 && compare_chars(b, c) <= 0 ==> compare_chars(a, c) <= 0,
    decreases a.len(),
{
    if a.len() > 0 && b.len() > 0 && c.len() > 0 {
        lemma_compare_chars(a.drop_first(), b.drop_first(), c.drop_first());
    } else if a.len() > 0 && b.len() > 0 {
        lemma_compare_chars(a.drop_first(), b.drop_first(), b.drop_first());
    }
}

proof fn lemma_compare_by_keys(
    a: BackendTorrentDownload,
    b: BackendTorrentDownload,
    c: BackendTorrentDownload,
    keys: Seq<SortKey>,
)
    ensures
        compare_by_keys(a, b, keys) == -compare_by_keys(b, a, keys),
        -1 <= compare_by_keys(a, b, keys) <= 1,
        compare_by_keys(a, b, keys) <= 0 && compare_by_keys(b, c, keys) <= 0 ==> compare_by_keys(a, c, keys)
            <= 0,
    decreases keys.len(),
{
    if keys.len() > 0 {
        lemma_compare_by_keys(a, b, c, keys.drop_first());
        lemma_compare_ints(a.id as int, b.id as int, c.id as int);
        lemma_compare_chars(a.name@, b.name@, c.name@);
        lemma_compare_ints(c.id as int, b.id as int, a.id as int);
        lemma_compare_chars(c.name@, b.name@, a.name@);
        lemma_compare_ints(a.id as int, c.id as int, b.id as int);
        lemma_compare_chars(a.name@, c.name@, b.name@);
        lemma_compare_ints(b.id as int, a.id as int, c.id as int);
        lemma_compare_chars(b.name@, a.name@, c.name@);
        lemma_compare_ints(c.id as int, a.id as int, b.id as int);
        lemma_compare_chars(c.name@, a.name@, b.name@);
        lemma_compare_ints(b.id as int, c.id as int, a.id as int);
        lemma_compare_chars(b.name@, c.name@, a.name@);
    }
}

/// Law: a descending key orders two downloads the other way round from
/// the same key ascending, whatever the field.
pub proof fn lemma_descending_reverses(a: BackendTorrentDownload, b: BackendTorrentDownload, field: SortField)
    ensures
        compare_by_key(a, b, SortKey { field, descending: true }) == -compare_by_key(
            a,
            b,
            SortKey { field, descending: false },
        ),
{
}

/// Law: by the id, ascending, a download comes first exactly when its id is
/// smaller, and descending exactly when its id is larger; two downloads are
/// tied exactly when their ids are equal.
pub proof fn lemma_id_order(a: BackendTorrentDownload, b: BackendTorrentDownload)
    ensures
        compare_by_key(a, b, SortKey { field: SortField::Id, descending: false }) < 0 <==> a.id < b.id,
        compare_by_key(a, b, SortKey { field: SortField::Id, descending: false }) > 0 <==> a.id > b.id,
        compare_by_key(a, b, SortKey { field: SortField::Id, descending: true }) < 0 <==> a.id > b.id,
        compare_by_key(a, b, SortKey { field: SortField::Id, descending: true }) > 0 <==> a.id < b.id,
        compare_by_key(a, b, SortKey { field: SortField::Id, descending: true }) == 0 <==> a.id == b.id,
{
}

/// Law: by the name, ascending, a name that is a proper prefix of another
/// comes first, and descending it comes last.
pub proof fn lemma_name_prefix_order(a: BackendTorrentDownload, b: BackendTorrentDownload)
    requires
        a.name@.len() < b.name@.len(),
        a.name@ == b.name@.take(a.name@.len() as int),
    ensures
        compare_by_key(a, b, SortKey { field: SortField::Name, descending: false }) < 0,
        compare_by_key(a, b, SortKey { field: SortField::Name, descending: true }) > 0,
{
    lemma_compare_chars_prefix(a.name@, b.name@);
}

/// Law: by the name, ascending, after a common start the download whose
/// name has the smaller next character comes first; descending it comes
/// last.
pub proof fn lemma_name_order(a: BackendTorrentDownload, b: BackendTorrentDownload, k: nat)
    requires
        k < a.name@.len(),
        k < b.name@.len(),
        a.name@.take(k as int) == b.name@.take(k as int),
        a.name@[k as int] < b.name@[k as int],
    ensures
        compare_by_key(a, b, SortKey { field: SortField::Name, descending: false }) < 0,
        compare_by_key(a, b, SortKey { field: SortField::Name, descending: true }) > 0,
{
    lemma_compare_chars_first_difference(a.name@, b.name@, k);
}

proof fn lemma_compare_chars_first_difference(a: Seq<char>, b: Seq<char>, k: nat)
    requires
        k < a.len(),
        k < b.len(),
        a.take(k as int) == b.take(k as int),
        a[k as int] < b[k as int],
    ensures
        compare_chars(a, b) == -1,
    decreases k,
{
    if k > 0 {
        assert(a[0] == a.take(k as int)[0]);
        assert(b[0] == b.take(k as int)[0]);
        assert(a.drop_first().take(k - 1) =~= a.take(k as int).drop_first());
        assert(b.drop_first().take(k - 1) =~= b.take(k as int).drop_first());
        lemma_compare_chars_first_difference(a.drop_first(), b.drop_first(), (k - 1) as nat);
    }
}

proof fn lemma_compare_chars_prefix(a: Seq<char>, b: Seq<char>)
    requires
        a.len() < b.len(),
        a == b.take(a.len() as int),
    ensures
        compare_chars(a, b) == -1,
    decreases a.len(),
{
    if a.len() > 0 {
        assert(a[0] == b[0]);
        assert(a.drop_first() =~= b.drop_first().take(a.drop_first().len() as int));
        lemma_compare_chars_prefix(a.drop_first(), b.drop_first());
    }
}

/// Law: sorted by the id alone, descending, the downloads come in order of
/// decreasing id; ascending, in order of increasing id.
pub proof fn lemma_sorted_by_id(items: Seq<BackendTorrentDownload>, descending: bool)
    ensures
        ({
            let sorted = stable_sorted(items, seq![SortKey { field: SortField::Id, descending }]);
            &&& sorted.to_multiset() == items.to_multiset()
            &&& forall|i: int, j: int|
                0 <= i < j < sorted.len() ==> if descending {
                    #[trigger] sorted[i].id >= #[trigger] sorted[j].id
                } else {
                    sorted[i].id <= sorted[j].id
                }
        }),
{
    let keys = seq![SortKey { field: SortField::Id, descending }];
    let sorted = stable_sorted(items, keys);
    lemma_sort_orders_and_keeps(items, keys);
    assert forall|i: int, j: int| 0 <= i < j < sorted.len() implies if descending {
        #[trigger] sorted[i].id >= #[trigger] sorted[j].id
    } else {
        sorted[i].id <= sorted[j].id
    } by {
        assert(compare_by_keys(sorted[i], sorted[j], keys) <= 0);
        assert(keys.drop_first() =~= Seq::<SortKey>::empty());
        lemma_id_order(sorted[i], sorted[j]);
    }
}

/// Law: a page of downloads listed by the id alone comes in order of
/// decreasing id when the order is descending, of increasing id otherwise.
pub proof fn lemma_listed_page_by_id(
    items: Seq<BackendTorrentDownload>,
    descending: bool,
    page: Option<usize>,
    size: Option<usize>,
)
    ensures
        ({
            let listed = listed_page(items, seq![SortKey { field: SortField::Id, descending }], page, size);
            forall|i: int, j: int|
                0 <= i < j < listed.len() ==> if descending {
                    #[trigger] listed[i].id >= #[trigger] listed[j].id
                } else {
                    listed[i].id <= listed[j].id
                }
        }),
{
    let keys = seq![SortKey { field: SortField::Id, descending }];
    let sorted = stable_sorted(items, keys);
    lemma_sorted_by_id(items, descending);
    let listed = listed_page(items, keys, page, size);
    let size_n = match size {
        Some(s) => s as int,
        None => 20,
    };
    let start = match page {
        Some(p) => p as int,
        None => 0,
    } * size_n;
    assert(start >= 0) by (nonlinear_arith)
        requires
            size_n >= 0,
            start == (match page {
                Some(p) => p as int,
                None => 0,
            }) * size_n,
            (match page {
                Some(p) => p as int,
                None => 0,
            }) >= 0,
    ;
    let from = if start < sorted.len() { start } else { sorted.len() as int };
    assert forall|i: int, j: int| 0 <= i < j < listed.len() implies if descending {
        #[trigger] listed[i].id >= #[trigger] listed[j].id
    } else {
        listed[i].id <= listed[j].id
    } by {
        assert(listed[i] == sorted[from + i]);
        assert(listed[j] == sorted[from + j]);
    }
}

/// Every download of `s` comes no later, by `keys`, than those after it.
pub open spec fn ordered_by(s: Seq<BackendTorrentDownload>, keys: Seq<SortKey>) -> bool {
    forall|i: int, j: int| 0 <= i < j < s.len() ==> compare_by_keys(#[trigger] s[i], #[trigger] s[j], keys) <= 0
}

proof fn lemma_insert_ordered(s: Seq<BackendTorrentDownload>, x: BackendTorrentDownload, keys: Seq<SortKey>)
    requires
        ordered_by(s, keys),
    ensures
        ordered_by(insert_ordered(s, x, keys), keys),
        insert_ordered(s, x, keys).to_multiset() == s.to_multiset().insert(x),
    decreases s.len(),
{
    broadcast use vstd::seq_lib::group_to_multiset_ensures;

    if s.len() == 0 {
        assert(seq![x] =~= Seq::<BackendTorrentDownload>::empty().push(x));
    } else {
        let t = s.drop_last();
        let last = s.last();
        assert(s =~= t.push(last));
        assert(ordered_by(t, keys)) by {
            assert forall|i: int, j: int| 0 <= i < j < t.len() implies compare_by_keys(
                #[trigger] t[i],
                #[trigger] t[j],
                keys,
            ) <= 0 by {
                assert(t[i] == s[i] && t[j] == s[j]);
            }
        }
        if compare_by_keys(last, x, keys) > 0 {
            lemma_insert_ordered(t, x, keys);
            let u = insert_ordered(t, x, keys);
            let r = u.push(last);
            assert forall|i: int, j: int| 0 <= i < j < r.len() implies compare_by_keys(
                #[trigger] r[i],
                #[trigger] r[j],
                keys,
            ) <= 0 by {
                if j < u.len() {
                    assert(r[i] == u[i] && r[j] == u[j]);
                } else {
                    let e = u[i];
                    assert(r[i] == e);
                    assert(u.to_multiset().count(e) > 0);
                    assert(u.contains(e));
                    if e == x {
                        lemma_compare_by_keys(last, x, x, keys);
                    } else {
                        assert(t.to_multiset().count(e) > 0);
                        assert(t.contains(e));
                        let k = choose|k: int| 0 <= k < t.len() && t[k] == e;
                        assert(s[k] == e);
                        assert(compare_by_keys(s[k], s[s.len() - 1], keys) <= 0);
                    }
                }
            }
            assert(r.to_multiset() =~= s.to_multiset().insert(x));
        } else {
            let r = s.push(x);
            assert forall|i: int, j: int| 0 <= i < j < r.len() implies compare_by_keys(
                #[trigger] r[i],
                #[trigger] r[j],
                keys,
            ) <= 0 by {
                if j < s.len() {
                    assert(r[i] == s[i] && r[j] == s[j]);
                } else if i == s.len() - 1 {
                    assert(r[i] == last);
                } else {
                    assert(compare_by_keys(s[i], s[s.len() - 1], keys) <= 0);
                    lemma_compare_by_keys(s[i], last, x, keys);
                }
            }
        }
    }
}

/// Sorting orders the downloads by the keys and keeps every download, each
/// as often as it was there.
pub proof fn lemma_sort_orders_and_keeps(items: Seq<BackendTorrentDownload>, keys: Seq<SortKey>)
    ensures
        ordered_by(stable_sorted(items, keys), keys),
        stable_sorted(items, keys).to_multiset() == items.to_multiset(),
    decreases items.len(),
{
    broadcast use vstd::seq_lib::group_to_multiset_ensures;

    if items.len() > 0 {
        lemma_sort_orders_and_keeps(items.drop_last(), keys);
        lemma_insert_ordered(stable_sorted(items.drop_last(), keys), items.last(), keys);
        assert(items =~= items.drop_last().push(items.last()));
    } else {
        assert(stable_sorted(items, keys).to_multiset() =~= items.to_multiset());
    }
}

} // verus!
