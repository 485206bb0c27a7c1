//! The part of a torrent file that names its trackers, read from the
//! decoded bencode dictionary.

use vstd::prelude::*;
use vstd::string::StringSliceAdditionalSpecFns;
use crate::bencode::{BencodeBlob, BencodeValue, SpecBlob, SpecValue, str_from_utf8, blobs_view, entries_view};

verus! {

/// Why a decoded value is not of the kind asked for.
#[derive(Debug)]
pub enum TryFromBencode {
    NotString,
    NotInteger,
    NotList,
    NotDictionary,
    NotUtf8(std::str::Utf8Error),
}

/// The kinds of `TryFromBencode`, in specifications.
pub enum ErrorKind {
    NotString,
    NotInteger,
    NotList,
    NotDictionary,
    NotUtf8,
}

/// The kind of an error.
pub open spec fn error_kind(e: TryFromBencode) -> ErrorKind {
    match e {
        TryFromBencode::NotString => ErrorKind::NotString,
        TryFromBencode::NotInteger => ErrorKind::NotInteger,
        TryFromBencode::NotList => ErrorKind::NotList,
        TryFromBencode::NotDictionary => ErrorKind::NotDictionary,
        TryFromBencode::NotUtf8(_) => ErrorKind::NotUtf8,
    }
}

/// A byte string that is valid UTF-8, as a string; the error of a value that is
/// not such a string.
pub open spec fn spec_as_str(v: SpecValue) -> Result<Seq<u8>, ErrorKind> {
    match v {
        SpecValue::String(b) => if vstd::utf8::valid_utf8(b) {
            Ok(b)
        } else {
            Err(ErrorKind::NotUtf8)
        },
        _ => Err(ErrorKind::NotString),
    }
}

impl<'a> BencodeValue<'a> {
    /// The value as a string: it must be a byte string of valid UTF-8.
    pub fn try_into_str(&self) -> (r: Result<&'a str, TryFromBencode>)
        ensures
            match spec_as_str(self.spec_view()) {
                Ok(b) => r matches Ok(s) && s.spec_bytes() == b,
                Err(k) => r matches Err(e) && error_kind(e) == k,
            },
    {
        match self {
            BencodeValue::String(s) => match str_from_utf8(s) {
                Ok(text) => Ok(text),
                Err(e) => Err(TryFromBencode::NotUtf8(e)),
            },
            _ => Err(TryFromBencode::NotString),
        }
    }

    /// The value as an integer.
    pub fn try_into_integer(&self) -> (r: Result<i64, TryFromBencode>)
        ensures
            match self.spec_view() {
                SpecValue::Integer(i) => r == Ok::<i64, TryFromBencode>(i),
                _ => r matches Err(TryFromBencode::NotInteger),
            },
    {
        match self {
            BencodeValue::Integer(i) => Ok(*i),
            _ => Err(TryFromBencode::NotInteger),
        }
    }

    /// The value as a list.
    pub fn try_into_list(&self) -> (r: Result<&Vec<BencodeBlob<'a>>, TryFromBencode>)
        ensures
            match self.spec_view() {
                SpecValue::List(items) => r matches Ok(l) && blobs_view(l@) == items,
                _ => r matches Err(TryFromBencode::NotList),
            },
    {
        match self {
            BencodeValue::List(items) => Ok(items),
            _ => Err(TryFromBencode::NotList),
        }
    }

    /// The value as a dictionary.
    pub fn try_into_dictionary(&self) -> (r: Result<&Vec<(&'a str, BencodeBlob<'a>)>, TryFromBencode>)
        ensures
            match self.spec_view() {
                SpecValue::Dictionary(entries) => r matches Ok(d) && entries_view(d@) == entries,
                _ => r matches Err(TryFromBencode::NotDictionary),
            },
    {
        match self {
            BencodeValue::Dictionary(entries) => Ok(entries),
            _ => Err(TryFromBencode::NotDictionary),
        }
    }
}

/// The trackers of a torrent: the source bytes of its metainfo dictionary,
/// the announce URL, the tiers of backup announce URLs, and the creation date.
#[derive(Debug)]
pub struct Torrent<'a> {
    pub raw: &'a [u8],
    pub announce: &'a str,
    pub announce_list: Option<Vec<Vec<&'a str>>>,
    pub creation_date: Option<i64>,
}

/// The key `announce`.
pub open spec fn announce_key() -> Seq<u8> {
    seq![97u8, 110, 110, 111, 117, 110, 99, 101]
}

/// The key `announce-list`.
pub open spec fn announce_list_key() -> Seq<u8> {
    announce_key() + seq![45u8, 108, 105, 115, 116]
}

/// The key `creation date`.
pub open spec fn creation_date_key() -> Seq<u8> {
    seq![99u8, 114, 101, 97, 116, 105, 111, 110, 32, 100, 97, 116, 101]
}

/// The fields read so far from the metainfo dictionary.
pub struct TorrentFields {
    pub announce: Option<Seq<u8>>,
    pub announce_list: Option<Seq<Seq<Seq<u8>>>>,
    pub creation_date: Option<i64>,
}

/// What reading the dictionary gives: the fields, an error, or a value in the
/// announce list that is not a list of strings (which the reader does not
/// handle).
pub enum TorrentScan {
    Fields(TorrentFields),
    Failed(ErrorKind),
    Unhandled,
}

/// The strings of a list of strings, `None` unless every item is a byte
/// string of valid UTF-8.
pub open spec fn strings_of(items: Seq<SpecBlob>) -> Option<Seq<Seq<u8>>>
    decreases items.len(),
{
    if items.len() == 0 {
        Some(seq![])
    } else {
        match (strings_of(items.drop_last()), spec_as_str(items.last().value)) {
            (Some(done), Ok(s)) => Some(done.push(s)),
            _ => None,
        }
    }
}

/// The tiers of a list of lists of strings, `None` unless every item is a
/// list of strings.
pub open spec fn tiers_of(items: Seq<SpecBlob>) -> Option<Seq<Seq<Seq<u8>>>>
    decreases items.len(),
{
    if items.len() == 0 {
        Some(seq![])
    } else {
        match (tiers_of(items.drop_last()), items.last().value) {
            (Some(done), SpecValue::List(inner)) => match strings_of(inner) {
                Some(strings) => Some(done.push(strings)),
                None => None,
            },
            _ => None,
        }
    }
}

/// Reads the entries of the metainfo dictionary in order, `acc` holding the
/// fields read before them: `announce` must be a string, `announce-list` a
/// list of lists of strings and `creation date` an integer; a later entry
/// with the same key replaces an earlier one; other keys are skipped; the
/// first entry of the wrong kind ends the reading with its error.
pub open spec fn scan_entries(entries: Seq<(Seq<u8>, SpecBlob)>, acc: TorrentFields) -> TorrentScan
    decreases entries.len(),
{
    if entries.len() == 0 {
        TorrentScan::Fields(acc)
    } else {
        let key = entries[0].0;
        let value = entries[0].1.value;
        let rest = entries.drop_first();
        if key == announce_key() {
            match spec_as_str(value) {
                Ok(s) => scan_entries(rest, TorrentFields { announce: Some(s), ..acc }),
                Err(k) => TorrentScan::Failed(k),
            }
        } else if key == announce_list_key() {
            match value {
                SpecValue::List(items) => match tiers_of(items) {
                    Some(tiers) => scan_entries(rest, TorrentFields { announce_list: Some(tiers), ..acc }),
                    None => TorrentScan::Unhandled,
                },
                _ => TorrentScan::Failed(ErrorKind::NotList),
            }
        } else if key == creation_date_key() {
            match value {
                SpecValue::Integer(i) => scan_entries(rest, TorrentFields { creation_date: Some(i), ..acc }),
                _ => TorrentScan::Failed(ErrorKind::NotInteger),
            }
        } else {
            scan_entries(rest, acc)
        }
    }
}

/// What a torrent holds of the decoded value `v`.
pub open spec fn spec_torrent(v: SpecValue) -> TorrentScan {
    match v {
        SpecValue::Dictionary(entries) => scan_entries(
            entries,
            TorrentFields { announce: None, announce_list: None, creation_date: None },
        ),
        _ => TorrentScan::Failed(ErrorKind::NotDictionary),
    }
}

/// The value can be read into a torrent without reaching what the reader
/// does not handle: an announce list item that is not a list of strings, or
/// a dictionary without `announce`.
pub open spec fn torrent_readable(v: SpecValue) -> bool {
    match spec_torrent(v) {
        TorrentScan::Fields(f) => f.announce is Some,
        TorrentScan::Failed(_) => true,
        TorrentScan::Unhandled => false,
    }
}

/// The strings of a tier.
pub open spec fn tier_view<'a>(tier: Seq<&'a str>) -> Seq<Seq<u8>> {
    tier.map_values(|s: &'a str| s.spec_bytes())
}

/// The strings of each tier.
pub open spec fn tiers_view<'a>(tiers: Seq<Vec<&'a str>>) -> Seq<Seq<Seq<u8>>> {
    tiers.map_values(|t: Vec<&'a str>| tier_view(t@))
}

/// Whether `a` and `b` hold the same bytes.
fn bytes_equal(a: &[u8], b: &[u8]) -> (r: bool)
    ensures
        r == (a@ == b@),
{
    if a.len() != b.len() {
        return false;
    }
    let mut i: usize = 0;
    while i < a.len()
        invariant
            a@.len() == b@.len(),
            i <= a@.len(),
            forall|j: int| 0 <= j < i ==> a@[j] == b@[j],
        decreases a@.len() - i,
    {
        if a[i] != b[i] {
            return false;
        }
        i += 1;
    }
    assert(a@ =~= b@);
    true
}

proof fn lemma_strings_prefix_none(bs: Seq<SpecBlob>, j: int)
    requires
        0 <= j <= bs.len(),
        strings_of(bs.take(j)) is None,
    ensures
        strings_of(bs) is None,
    decreases bs.len() - j,
{
    if j < bs.len() {
        assert(bs.take(j + 1).drop_last() =~= bs.take(j));
        lemma_strings_prefix_none(bs, j + 1);
    } else {
        assert(bs.take(j) =~= bs);
    }
}

proof fn lemma_tiers_prefix_none(bs: Seq<SpecBlob>, j: int)
    requires
        0 <= j <= bs.len(),
        tiers_of(bs.take(j)) is None,
    ensures
        tiers_of(bs) is None,
    decreases bs.len() - j,
{
    if j < bs.len() {
        assert(bs.take(j + 1).drop_last() =~= bs.take(j));
        lemma_tiers_prefix_none(bs, j + 1);
    } else {
        assert(bs.take(j) =~= bs);
    }
}

/// The strings of `items`, when each is a byte string of valid UTF-8.
fn read_strings<'a>(items: &Vec<BencodeBlob<'a>>) -> (r: Option<Vec<&'a str>>)
    ensures
        match strings_of(blobs_view(items@)) {
            Some(strings) => r matches Some(v) && tier_view(v@) == strings,
            None => r is None,
        },
{
    let mut out: Vec<&'a str> = Vec::new();
    let mut i: usize = 0;
    proof {
        crate::bencode::lemma_blobs_view_len(items@);
    }
    assert(blobs_view(items@).take(0) =~= Seq::<SpecBlob>::empty());
    while i < items.len()
        invariant
            i <= items@.len(),
            blobs_view(items@).len() == items@.len(),
            strings_of(blobs_view(items@).take(i as int)) == Some(tier_view(out@)),
        decreases items@.len() - i,
    {
        let ghost done = blobs_view(items@).take(i as int);
        let ghost next = blobs_view(items@).take(i + 1);
        proof {
            crate::bencode::lemma_blobs_view_index(items@, i as int);
            assert(next.drop_last() =~= done);
            assert(next.last() == items@[i as int].spec_view());
        }
        match items[i].value.try_into_str() {
            Ok(text) => {
                let ghost before = out@;
                out.push(text);
                assert(tier_view(out@) =~= tier_view(before).push(text.spec_bytes()));
            },
            Err(_) => {
                proof {
                    lemma_strings_prefix_none(blobs_view(items@), i + 1);
                }
                return None;
            },
        }
        i += 1;
    }
    assert(blobs_view(items@).take(i as int) =~= blobs_view(items@));
    Some(out)
}

/// The tiers of `items`, when each is a list of strings.
fn read_tiers<'a>(items: &Vec<BencodeBlob<'a>>) -> (r: Option<Vec<Vec<&'a str>>>)
    ensures
        match tiers_of(blobs_view(items@)) {
            Some(tiers) => r matches Some(v) && tiers_view(v@) == tiers,
            None => r is None,
        },
{
    let mut out: Vec<Vec<&'a str>> = Vec::new();
    let mut i: usize = 0;
    proof {
        crate::bencode::lemma_blobs_view_len(items@);
    }
    assert(blobs_view(items@).take(0) =~= Seq::<SpecBlob>::empty());
    assert(tiers_view(out@) =~= Seq::<Seq<Seq<u8>>>::empty());
    while i < items.len()
        invariant
            i <= items@.len(),
            blobs_view(items@).len() == items@.len(),
            tiers_of(blobs_view(items@).take(i as int)) == Some(tiers_view(out@)),
        decreases items@.len() - i,
    {
        let ghost done = blobs_view(items@).take(i as int);
        let ghost next = blobs_view(items@).take(i + 1);
        proof {
            crate::bencode::lemma_blobs_view_index(items@, i as int);
            assert(next.drop_last() =~= done);
            assert(next.last() == items@[i as int].spec_view());
        }
        let inner = match items[i].value.try_into_list() {
            Ok(l) => l,
            Err(_) => {
                proof {
                    lemma_tiers_prefix_none(blobs_view(items@), i + 1);
                }
                return None;
            },
        };
        match read_strings(inner) {
            Some(strings) => {
                let ghost before = out@;
                out.push(strings);
                assert(tiers_view(out@) =~= tiers_view(before).push(tier_view(strings@)));
            },
            None => {
                proof {
                    lemma_tiers_prefix_none(blobs_view(items@), i + 1);
                }
                return None;
            },
        }
        i += 1;
    }
    assert(blobs_view(items@).take(i as int) =~= blobs_view(items@));
    Some(out)
}

/// The fields of a torrent as read so far.
pub open spec fn fields_view<'a>(
    announce: Option<&'a str>,
    announce_list: Option<Vec<Vec<&'a str>>>,
    creation_date: Option<i64>,
) -> TorrentFields {
    TorrentFields {
        announce: match announce {
            Some(s) => Some(s.spec_bytes()),
            None => None,
        },
        announce_list: match announce_list {
            Some(l) => Some(tiers_view(l@)),
            None => None,
        },
        creation_date,
    }
}

impl<'a> Torrent<'a> {
    /// Reads the trackers of a torrent from its decoded metainfo dictionary;
    /// `None` when the dictionary is one that the reader does not handle:
    /// an announce list item that is not a list of strings, or no
    /// `announce`.
    pub fn try_read(value: BencodeBlob<'a>) -> (r: Option<Result<Torrent<'a>, TryFromBencode>>)
        ensures
            r is None <==> !torrent_readable(value.value.spec_view()),
            match spec_torrent(value.value.spec_view()) {
                TorrentScan::Fields(f) => f.announce is Some ==> (r matches Some(Ok(t)) && t.raw@
                    == value.source@ && fields_view(Some(t.announce), t.announce_list, t.creation_date) == f),
                TorrentScan::Failed(k) => r matches Some(Err(e)) && error_kind(e) == k,
                TorrentScan::Unhandled => r is None,
            },
    {
        let dictionary = match value.value.try_into_dictionary() {
            Ok(d) => d,
            Err(e) => {
                return Some(Err(e));
            },
        };
        let ghost entries = entries_view(dictionary@);
        let ghost start = TorrentFields { announce: None, announce_list: None, creation_date: None };
        assert(spec_torrent(value.value.spec_view()) == scan_entries(entries, start));
        let announce_k: [u8; 8] = [97, 110, 110, 111, 117, 110, 99, 101];
        let announce_list_k: [u8; 13] = [97, 110, 110, 111, 117, 110, 99, 101, 45, 108, 105, 115, 116];
        let creation_date_k: [u8; 13] = [99, 114, 101, 97, 116, 105, 111, 110, 32, 100, 97, 116, 101];
        assert(announce_k@ =~= announce_key());
        assert(announce_list_k@ =~= announce_list_key());
        assert(creation_date_k@ =~= creation_date_key());
        let mut announce: Option<&'a str> = None;
        let mut announce_list: Option<Vec<Vec<&'a str>>> = None;
        let mut creation_date: Option<i64> = None;
        let mut i: usize = 0;
        proof {
            crate::bencode::lemma_entries_view_len(dictionary@);
        }
        assert(entries.skip(0) =~= entries);
        while i < dictionary.len()
            invariant
                i <= dictionary@.len(),
                entries == entries_view(dictionary@),
                entries.len() == dictionary@.len(),
                announce_k@ == announce_key(),
                announce_list_k@ == announce_list_key(),
                creation_date_k@ == creation_date_key(),
                scan_entries(entries, start) == scan_entries(
                    entries.skip(i as int),
                    fields_view(announce, announce_list, creation_date),
                ),
                spec_torrent(value.value.spec_view()) == scan_entries(entries, start),
            decreases dictionary@.len() - i,
        {
            let (key, blob) = &dictionary[i];
            let ghost cur = fields_view(announce, announce_list, creation_date);
            proof {
                crate::bencode::lemma_entries_view_index(dictionary@, i as int);
                assert(entries.skip(i as int)[0] == entries[i as int]);
                assert(entries.skip(i as int).drop_first() =~= entries.skip(i + 1));
            }
            let key_bytes = key.as_bytes();
            if bytes_equal(key_bytes, announce_k.as_slice()) {
                match blob.value.try_into_str() {
                    Ok(text) => {
                        announce = Some(text);
                    },
                    Err(e) => {
                        return Some(Err(e));
                    },
                }
            } else if bytes_equal(key_bytes, announce_list_k.as_slice()) {
                let items = match blob.value.try_into_list() {
                    Ok(items) => items,
                    Err(e) => {
                        return Some(Err(e));
                    },
                };
                match read_tiers(items) {
                    Some(tiers) => {
                        announce_list = Some(tiers);
                    },
                    None => {
                        return None;
                    },
                }
            } else if bytes_equal(key_bytes, creation_date_k.as_slice()) {
                match blob.value.try_into_integer() {
                    Ok(date) => {
                        creation_date = Some(date);
                    },
                    Err(e) => {
                        return Some(Err(e));
                    },
                }
            }
            i += 1;
        }
        assert(entries.skip(i as int) =~= Seq::<(Seq<u8>, SpecBlob)>::empty());
        match announce {
            Some(a) => Some(Ok(Torrent { raw: value.source, announce: a, announce_list, creation_date })),
            None => None,
        }
    }

    /// Reads the trackers of a torrent from its decoded metainfo dictionary.
    pub fn try_from(value: BencodeBlob<'a>) -> (r: Result<Torrent<'a>, TryFromBencode>)
        requires
            torrent_readable(value.value.spec_view()),
        ensures
            match spec_torrent(value.value.spec_view()) {
                TorrentScan::Fields(f) => r matches Ok(t) && t.raw@ == value.source@ && fields_view(
                    Some(t.announce),
                    t.announce_list,
                    t.creation_date,
                ) == f,
                TorrentScan::Failed(k) => r matches Err(e) && error_kind(e) == k,
                TorrentScan::Unhandled => false,
            },
    {
        match Torrent::try_read(value) {
            Some(r) => r,
            None => {
                assert(false);
                Err(TryFromBencode::NotString)
            },
        }
    }
}

} // verus!
