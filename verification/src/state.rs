//! Sync state tracking: per-table SHA3-256 hashes and timestamps.

use vstd::prelude::*;
use vstd::string::*;
use vstd::utf8::*;

use crate::ordered::{Dup, NameSet, SortedMap};
use crate::text::{decimal, decimal_text, string_view, text_of};

verus! {

// ---------------------------------------------------------------------
// Hashes
// ---------------------------------------------------------------------

/// A SHA3-256 hash stored as raw bytes, written as a lowercase hex string.
#[derive(Debug, Clone, Copy, PartialEq, Eq, Hash)]
pub struct Sha3Hash([u8; 32]);

impl View for Sha3Hash {
    type V = Seq<u8>;

    closed spec fn view(&self) -> Seq<u8> {
        self.0@
    }
}

/// The SHA3-256 digest of some bytes.
pub uninterp spec fn sha3_digest(data: Seq<u8>) -> Seq<u8>;

/// `sha3::Sha3_256::digest`: the SHA3-256 digest of some bytes. Claims that it is a
/// function of the bytes.
#[verifier::external_body]
fn sha3_256(data: &[u8]) -> (r: [u8; 32])
    ensures
        r@ == sha3_digest(data@),
{
    <sha3::Sha3_256 as sha3::Digest>::digest(data).into()
}

/// The error type of `std::str::from_utf8`.
#[verifier::external_type_specification]
#[verifier::external_body]
pub struct ExUtf8Error(std::str::Utf8Error);

/// `std::str::from_utf8`: bytes that are valid UTF-8 as the string they encode.
pub assume_specification[ std::str::from_utf8 ](v: &[u8]) -> (r: Result<&str, std::str::Utf8Error>)
    ensures
        match r {
            Ok(s) => valid_utf8(v@) && s@ == decode_utf8(v@),
            Err(_) => !valid_utf8(v@),
        },
;

/// The value of a hex digit, upper or lower case.
pub open spec fn hex_value(b: u8) -> Option<u8> {
    if 0x30 <= b <= 0x39 {
        Some((b - 0x30) as u8)
    } else if 0x61 <= b <= 0x66 {
        Some((b - 0x61 + 10) as u8)
    } else if 0x41 <= b <= 0x46 {
        Some((b - 0x41 + 10) as u8)
    } else {
        None
    }
}

/// The byte that two hex digits stand for, else what is wrong with them.
pub open spec fn hex_pair(hi: u8, lo: u8) -> Result<u8, Seq<char>> {
    match (hex_value(hi), hex_value(lo)) {
        (Some(h), Some(l)) => Ok((h * 16 + l) as u8),
        _ => if valid_utf8(seq![hi, lo]) {
            Err("invalid hex: "@ + decode_utf8(seq![hi, lo]))
        } else {
            Err("invalid UTF-8 in hex string"@)
        },
    }
}

/// The bytes that the first `n` pairs stand for, else what is wrong with the first wrong
/// pair.
pub open spec fn hex_bytes(s: Seq<u8>, n: int) -> Result<Seq<u8>, Seq<char>>
    decreases n,
{
    if n <= 0 {
        Ok(Seq::empty())
    } else {
        match hex_bytes(s, n - 1) {
            Ok(before) => match hex_pair(s[2 * n - 2], s[2 * n - 1]) {
                Ok(b) => Ok(before.push(b)),
                Err(e) => Err(e),
            },
            Err(e) => Err(e),
        }
    }
}

/// The hash that a string of hex digits stands for, else what is wrong with it.
pub open spec fn hash_of_hex(s: Seq<u8>) -> Result<Seq<u8>, Seq<char>> {
    if s.len() != 64 {
        Err("expected 64 hex characters, got "@ + decimal(s.len()))
    } else {
        hex_bytes(s, 32)
    }
}

/// The lowercase digit of a value below sixteen.
pub open spec fn hex_digit(v: u8) -> char {
    if v < 10 {
        (0x30 + v) as char
    } else {
        (0x61 + v - 10) as char
    }
}

/// Bytes as lowercase hex digits, two for each.
pub open spec fn hex_of(bytes: Seq<u8>) -> Seq<char> {
    Seq::new(
        2 * bytes.len(),
        |i: int|
            if i % 2 == 0 {
                hex_digit(bytes[i / 2] / 16)
            } else {
                hex_digit(bytes[i / 2] % 16)
            },
    )
}

proof fn lemma_error_stays(s: Seq<u8>, n: int, m: int)
    requires
        0 <= n <= m,
        hex_bytes(s, n) is Err,
    ensures
        hex_bytes(s, m) == hex_bytes(s, n),
    decreases m - n,
{
    if n < m {
        lemma_error_stays(s, n, m - 1);
    }
}

proof fn lemma_hex_digit(v: u8)
    requires
        v < 16,
    ensures
        hex_value(hex_digit(v) as u8) == Some(v),
        '\0' <= hex_digit(v) <= '\u{7f}',
{
}

proof fn lemma_hex_bytes(hash: Seq<u8>, s: Seq<u8>, n: int)
    requires
        0 <= n <= hash.len(),
        s.len() == 2 * hash.len(),
        forall|i: int| 0 <= i < s.len() ==> #[trigger] s[i] == hex_of(hash)[i] as u8,
    ensures
        hex_bytes(s, n) == Ok::<Seq<u8>, Seq<char>>(hash.take(n)),
    decreases n,
{
    if n > 0 {
        lemma_hex_bytes(hash, s, n - 1);
        let b = hash[n - 1];
        assert((2 * n - 2) / 2 == n - 1 && (2 * n - 2) % 2 == 0);
        assert((2 * n - 1) / 2 == n - 1 && (2 * n - 1) % 2 == 1);
        lemma_hex_digit(b / 16);
        lemma_hex_digit(b % 16);
        assert(s[2 * n - 2] == hex_digit(b / 16) as u8);
        assert(s[2 * n - 1] == hex_digit(b % 16) as u8);
        assert((b / 16) * 16 + b % 16 == b);
        assert(hash.take(n) =~= hash.take(n - 1).push(b));
    } else {
        assert(hash.take(0) =~= Seq::<u8>::empty());
    }
}

/// A hash written in hex is read back as the same hash.
pub proof fn law_hex_round_trip(hash: Seq<u8>)
    requires
        hash.len() == 32,
    ensures
        hash_of_hex(encode_utf8(hex_of(hash))) == Ok::<Seq<u8>, Seq<char>>(hash),
{
    let text = hex_of(hash);
    assert forall|i: int| 0 <= i < text.len() implies '\0' <= #[trigger] text[i] <= '\u{7f}' by {
        if i % 2 == 0 {
            lemma_hex_digit(hash[i / 2] / 16);
        } else {
            lemma_hex_digit(hash[i / 2] % 16);
        }
    }
    assert(is_ascii_chars(text));
    is_ascii_chars_encode_utf8(text);
    lemma_hex_bytes(hash, encode_utf8(text), 32);
    assert(hash.take(32) =~= hash);
}

/// A lowercase hex digit.
pub open spec fn is_lower_hex(c: char) -> bool {
    ('0' <= c <= '9') || ('a' <= c <= 'f')
}

proof fn lemma_lower_hex(c: char)
    requires
        is_lower_hex(c),
    ensures
        hex_value(c as u8) is Some,
        hex_value(c as u8)->Some_0 < 16,
        hex_digit(hex_value(c as u8)->Some_0) == c,
        '\0' <= c <= '\u{7f}',
{
}

proof fn lemma_lower_hex_bytes(text: Seq<char>, s: Seq<u8>, n: int)
    requires
        0 <= n,
        2 * n <= text.len(),
        s.len() == text.len(),
        forall|i: int| 0 <= i < text.len() ==> is_lower_hex(#[trigger] text[i]),
        forall|i: int| 0 <= i < text.len() ==> #[trigger] s[i] == text[i] as u8,
    ensures
        hex_bytes(s, n) is Ok,
        hex_bytes(s, n)->Ok_0.len() == n,
        hex_of(hex_bytes(s, n)->Ok_0) == text.take(2 * n),
    decreases n,
{
    if n > 0 {
        lemma_lower_hex_bytes(text, s, n - 1);
        let hi = text[2 * n - 2];
        let lo = text[2 * n - 1];
        lemma_lower_hex(hi);
        lemma_lower_hex(lo);
        assert(s[2 * n - 2] == hi as u8);
        assert(s[2 * n - 1] == lo as u8);
        let h = hex_value(hi as u8)->Some_0;
        let l = hex_value(lo as u8)->Some_0;
        let b = (h * 16 + l) as u8;
        let before = hex_bytes(s, n - 1)->Ok_0;
        let all = hex_bytes(s, n)->Ok_0;
        assert(b / 16 == h && b % 16 == l);
        assert(all == before.push(b));
        let digits = hex_of(all);
        assert forall|i: int| 0 <= i < 2 * n implies #[trigger] digits[i] == text.take(2 * n)[i] by {
            if i < 2 * n - 2 {
                assert(hex_of(before)[i] == text.take(2 * n - 2)[i]);
                assert(all[i / 2] == before[i / 2]);
            } else {
                assert(i / 2 == n - 1);
                assert(all[i / 2] == b);
            }
        }
        assert(digits =~= text.take(2 * n));
    } else {
        assert(hex_of(hex_bytes(s, 0)->Ok_0) =~= text.take(0));
    }
}

/// A text of sixty-four lowercase hex digits is read as a hash, and that hash is written as
/// the same text.
pub proof fn law_lower_hex_is_read_and_written_back(text: Seq<char>)
    requires
        text.len() == 64,
        forall|i: int| 0 <= i < text.len() ==> is_lower_hex(#[trigger] text[i]),
    ensures
        hash_of_hex(encode_utf8(text)) is Ok,
        hex_of(hash_of_hex(encode_utf8(text))->Ok_0) == text,
{
    assert forall|i: int| 0 <= i < text.len() implies '\0' <= #[trigger] text[i] <= '\u{7f}' by {
        lemma_lower_hex(text[i]);
    }
    assert(is_ascii_chars(text));
    is_ascii_chars_encode_utf8(text);
    lemma_lower_hex_bytes(text, encode_utf8(text), 32);
    assert(text.take(64) =~= text);
}

fn hex_value_of(b: u8) -> (r: Option<u8>)
    ensures
        r == hex_value(b),
{
    if 0x30 <= b && b <= 0x39 {
        Some(b - 0x30)
    } else if 0x61 <= b && b <= 0x66 {
        Some(b - 0x61 + 10)
    } else if 0x41 <= b && b <= 0x46 {
        Some(b - 0x41 + 10)
    } else {
        None
    }
}

fn hex_digit_of(v: u8) -> (r: char)
    requires
        v < 16,
    ensures
        r == hex_digit(v),
{
    match v {
        0 => '0',
        1 => '1',
        2 => '2',
        3 => '3',
        4 => '4',
        5 => '5',
        6 => '6',
        7 => '7',
        8 => '8',
        9 => '9',
        10 => 'a',
        11 => 'b',
        12 => 'c',
        13 => 'd',
        14 => 'e',
        _ => 'f',
    }
}

/// The text of an error, or the bytes of a hash.
pub open spec fn hash_result(r: Result<Sha3Hash, String>) -> Result<Seq<u8>, Seq<char>> {
    match r {
        Ok(h) => Ok(h@),
        Err(e) => Err(e@),
    }
}

fn hex_pair_of(hi: u8, lo: u8) -> (r: Result<u8, String>)
    ensures
        match r {
            Ok(b) => hex_pair(hi, lo) == Ok::<u8, Seq<char>>(b),
            Err(e) => hex_pair(hi, lo) == Err::<u8, Seq<char>>(e@),
        },
{
    match (hex_value_of(hi), hex_value_of(lo)) {
        (Some(h), Some(l)) => Ok(h * 16 + l),
        _ => {
            let chunk: Vec<u8> = vec![hi, lo];
            proof {
                assert(chunk@ =~= seq![hi, lo]);
            }
            match std::str::from_utf8(chunk.as_slice()) {
                Ok(pair) => {
                    let mut message = text_of("invalid hex: ");
                    message.append(pair);
                    Err(message)
                },
                Err(_) => Err(text_of("invalid UTF-8 in hex string")),
            }
        },
    }
}

impl Sha3Hash {
    /// Compute the SHA3-256 hash of `data`.
    pub fn new(data: &[u8]) -> (r: Sha3Hash)
        ensures
            r@ == sha3_digest(data@),
    {
        Sha3Hash(sha3_256(data))
    }

    /// Parse a 64-character hex string into a SHA3-256 hash.
    pub fn from_hex(s: &str) -> (r: Result<Sha3Hash, String>)
        ensures
            hash_result(r) == hash_of_hex(encode_utf8(s@)),
    {
        let digits: &[u8] = s.as_bytes();
        if digits.len() != 64 {
            let mut message = text_of("expected 64 hex characters, got ");
            message.append(decimal_text(digits.len()).as_str());
            return Err(message);
        }
        let mut bytes: [u8; 32] = [0u8;32];
        let mut i: usize = 0;
        proof {
            assert(bytes@.take(0) =~= Seq::<u8>::empty());
        }
        while i < 32
            invariant
                digits@ == encode_utf8(s@),
                digits@.len() == 64,
                i <= 32,
                hex_bytes(digits@, i as int) == Ok::<Seq<u8>, Seq<char>>(bytes@.take(i as int)),
            decreases 32 - i,
        {
            match hex_pair_of(digits[2 * i], digits[2 * i + 1]) {
                Ok(b) => {
                    let ghost before = bytes@;
                    bytes[i] = b;
                    proof {
                        assert(bytes@.take(i + 1) =~= before.take(i as int).push(b));
                    }
                },
                Err(e) => {
                    proof {
                        lemma_error_stays(digits@, i + 1, 32);
                    }
                    return Err(e);
                },
            }
            i += 1;
        }
        proof {
            assert(bytes@.take(32) =~= bytes@);
        }
        Ok(Sha3Hash(bytes))
    }

    /// The hash as 64 lowercase hex characters.
    pub fn to_hex(&self) -> (r: String)
        ensures
            r@ == hex_of(self@),
            r@.len() == 64,
    {
        let mut out = String::new();
        let mut i: usize = 0;
        while i < 32
            invariant
                i <= 32,
                out@ == hex_of(self@.take(i as int)),
                self@.len() == 32,
                self@ == self.0@,
            decreases 32 - i,
        {
            let b: u8 = self.0[i];
            out.push(hex_digit_of(b / 16));
            out.push(hex_digit_of(b % 16));
            proof {
                let more = hex_of(self@.take(i + 1));
                assert forall|j: int| 0 <= j < more.len() implies more[j] == out@[j] by {
                    if j < 2 * i {
                        assert(self@.take(i + 1)[j / 2] == self@.take(i as int)[j / 2]);
                    } else {
                        assert(j / 2 == i);
                        assert(self@.take(i + 1)[j / 2] == b);
                    }
                }
                assert(more =~= out@);
            }
            i += 1;
        }
        proof {
            assert(self@.take(32) =~= self@);
        }
        out
    }

    /// Whether two hashes are the same.
    pub fn same(&self, other: &Sha3Hash) -> (r: bool)
        ensures
            r == (self@ == other@),
    {
        let mut i: usize = 0;
        while i < 32
            invariant
                i <= 32,
                self@ == self.0@,
                other@ == other.0@,
                forall|j: int| 0 <= j < i ==> self@[j] == other@[j],
            decreases 32 - i,
        {
            if self.0[i] != other.0[i] {
                return false;
            }
            i += 1;
        }
        proof {
            assert(self@ =~= other@);
        }
        true
    }
}

/// SHA3-256 hashes of the three tracked files.
#[derive(Debug, Clone, Copy, PartialEq, Eq)]
pub struct Sha3Hashes {
    /// SHA3-256 hash of `info.json`.
    pub info: Sha3Hash,
    /// SHA3-256 hash of `header.json`.
    pub header: Sha3Hash,
    /// SHA3-256 hash of `data.json`.
    pub data: Sha3Hash,
}

/// The mathematical hashes.
#[verifier::ext_equal]
pub struct HashesView {
    pub info: Seq<u8>,
    pub header: Seq<u8>,
    pub data: Seq<u8>,
}

impl View for Sha3Hashes {
    type V = HashesView;

    open spec fn view(&self) -> HashesView {
        HashesView { info: self.info@, header: self.header@, data: self.data@ }
    }
}

impl Sha3Hashes {
    /// Whether all three hashes are the same.
    pub fn same(&self, other: &Sha3Hashes) -> (r: bool)
        ensures
            r == (self@ == other@),
    {
        self.info.same(&other.info) && self.header.same(&other.header) && self.data.same(
            &other.data,
        )
    }

    /// The hashes of the contents of the three tracked files.
    pub fn of_contents(info: &str, header: &str, data: &str) -> (r: Sha3Hashes)
        ensures
            r@ == content_hashes(info@, header@, data@),
            r.info@ == sha3_digest(encode_utf8(info@)),
            r.header@ == sha3_digest(encode_utf8(header@)),
            r.data@ == sha3_digest(encode_utf8(data@)),
    {
        Sha3Hashes {
            info: Sha3Hash::new(info.as_bytes()),
            header: Sha3Hash::new(header.as_bytes()),
            data: Sha3Hash::new(data.as_bytes()),
        }
    }
}

/// The hashes of the contents of the three tracked files.
pub open spec fn content_hashes(info: Seq<char>, header: Seq<char>, data: Seq<char>) -> HashesView {
    HashesView {
        info: sha3_digest(encode_utf8(info)),
        header: sha3_digest(encode_utf8(header)),
        data: sha3_digest(encode_utf8(data)),
    }
}

// ---------------------------------------------------------------------
// State
// ---------------------------------------------------------------------

/// A moment in time: seconds and nanoseconds since 1970 in UTC.
#[derive(Debug, Clone, Copy, PartialEq, Eq, Structural)]
pub struct Timestamp {
    /// Whole seconds.
    pub secs: i64,
    /// Nanoseconds within the second.
    pub nanos: u32,
}

/// Per-table state: hashes of the three tracked files and timestamps.
#[derive(Debug, Clone, Copy)]
pub struct TableState {
    /// When this table was last checked.
    pub last_check: Timestamp,
    /// When any of the three files last changed.
    pub last_change: Timestamp,
    /// Hashes of the three files.
    pub sha3_256: Sha3Hashes,
}

/// The mathematical per-table state.
#[verifier::ext_equal]
pub struct TableStateView {
    pub last_check: Timestamp,
    pub last_change: Timestamp,
    pub sha3_256: HashesView,
}

impl View for TableState {
    type V = TableStateView;

    open spec fn view(&self) -> TableStateView {
        TableStateView {
            last_check: self.last_check,
            last_change: self.last_change,
            sha3_256: self.sha3_256@,
        }
    }
}

impl Dup for TableState {
    fn dup(&self) -> (r: TableState) {
        *self
    }
}

/// Global sync metadata.
#[derive(Debug, Clone, Copy)]
pub struct GlobalState {
    /// When the last sync completed.
    pub last_sync: Timestamp,
}

/// Top-level sync state.
pub struct SyncState {
    /// Global sync metadata.
    pub global: GlobalState,
    /// Per-table state, keyed by table address.
    pub tables: SortedMap<TableState>,
}

/// A scanned table directory and what could be read of its three tracked files.
pub struct TrackedTable {
    /// Address of the table.
    pub url: String,
    /// Content of `info.json`.
    pub info: Option<String>,
    /// Content of `header.json`.
    pub header: Option<String>,
    /// Content of `data.json`.
    pub data: Option<String>,
}

/// The mathematical tracked table.
#[verifier::ext_equal]
pub struct TrackedView {
    pub url: Seq<char>,
    pub info: Option<Seq<char>>,
    pub header: Option<Seq<char>>,
    pub data: Option<Seq<char>>,
}

impl View for TrackedTable {
    type V = TrackedView;

    open spec fn view(&self) -> TrackedView {
        TrackedView {
            url: self.url@,
            info: string_view(self.info),
            header: string_view(self.header),
            data: string_view(self.data),
        }
    }
}

/// A table that goes into the state: it is active and all three files could be read.
pub open spec fn is_tracked(table: TrackedView, active: Set<Seq<char>>) -> bool {
    active.contains(table.url) && table.info is Some && table.header is Some && table.data is Some
}

/// When the files last changed: when they did according to the old state where that holds
/// the same hashes, else now.
pub open spec fn change_time(
    hashes: HashesView,
    old: Option<TableStateView>,
    now: Timestamp,
) -> Timestamp {
    match old {
        Some(o) => if o.sha3_256 == hashes {
            o.last_change
        } else {
            now
        },
        None => now,
    }
}

/// The state of one table with the given hashes.
pub open spec fn checked_state(
    hashes: HashesView,
    old: Option<TableStateView>,
    now: Timestamp,
) -> TableStateView {
    TableStateView {
        last_check: now,
        last_change: change_time(hashes, old, now),
        sha3_256: hashes,
    }
}

/// The old state of an address.
pub open spec fn old_state_of(old: Map<Seq<char>, TableStateView>, url: Seq<char>) -> Option<
    TableStateView,
> {
    if old.contains_key(url) {
        Some(old[url])
    } else {
        None
    }
}

/// The states of all tables that go into the state, a later directory of the same table
/// replacing an earlier one.
pub open spec fn tracked_states(
    tables: Seq<TrackedView>,
    active: Set<Seq<char>>,
    old: Map<Seq<char>, TableStateView>,
    now: Timestamp,
) -> Map<Seq<char>, TableStateView>
    decreases tables.len(),
{
    if tables.len() == 0 {
        Map::empty()
    } else {
        let before = tracked_states(tables.drop_last(), active, old, now);
        let t = tables.last();
        if is_tracked(t, active) {
            before.insert(
                t.url,
                checked_state(
                    content_hashes(t.info->Some_0, t.header->Some_0, t.data->Some_0),
                    old_state_of(old, t.url),
                    now,
                ),
            )
        } else {
            before
        }
    }
}

/// The tables of an optional old state.
pub open spec fn old_tables(old: Option<&SyncState>) -> Map<Seq<char>, TableStateView> {
    match old {
        Some(s) => s.tables@,
        None => Map::empty(),
    }
}

/// The name of the first tracked file that could not be read.
pub fn unreadable_file(table: &TrackedTable) -> (r: Option<String>)
    ensures
        string_view(r) == if table.info is None {
            Some("info.json"@)
        } else if table.header is None {
            Some("header.json"@)
        } else if table.data is None {
            Some("data.json"@)
        } else {
            None
        },
{
    if table.info.is_none() {
        Some(text_of("info.json"))
    } else if table.header.is_none() {
        Some(text_of("header.json"))
    } else if table.data.is_none() {
        Some(text_of("data.json"))
    } else {
        None
    }
}

/// The state of one table, given the hashes of its files and its old state.
pub fn check_table(hashes: Sha3Hashes, old: Option<&TableState>, now: Timestamp) -> (r: TableState)
    ensures
        r@ == checked_state(
            hashes@,
            match old {
                Some(o) => Some(o@),
                None => None,
            },
            now,
        ),
{
    let last_change: Timestamp = match old {
        Some(o) => if o.sha3_256.same(&hashes) {
            o.last_change
        } else {
            now
        },
        None => now,
    };
    TableState { last_check: now, last_change, sha3_256: hashes }
}

/// Compute the sync state.
///
/// Only tables whose address is in `active_urls` and whose three files could be read are
/// in it, each with the digests of its three files. Where all three hashes match the old
/// state, `last_change` is preserved; otherwise it is `now`.
pub fn compute_state(
    active_urls: &NameSet,
    tables: &Vec<TrackedTable>,
    old_state: Option<&SyncState>,
    now: Timestamp,
) -> (r: SyncState)
    ensures
        r.global.last_sync == now,
        r.tables@ == tracked_states(
            tables@.map_values(|t: TrackedTable| t@),
            active_urls@,
            old_tables(old_state),
            now,
        ),
        forall|i: int|
            0 <= i < tables@.len() && active_urls@.contains((#[trigger] tables@[i]).url@)
                && tables@[i].info is Some && tables@[i].header is Some && tables@[i].data is Some
                && (forall|j: int|
                i < j < tables@.len() ==> (#[trigger] tables@[j]).url@ != tables@[i].url@) ==> {
                let url = tables@[i].url@;
                let info = sha3_digest(encode_utf8(tables@[i].info->Some_0@));
                let header = sha3_digest(encode_utf8(tables@[i].header->Some_0@));
                let data = sha3_digest(encode_utf8(tables@[i].data->Some_0@));
                &&& r.tables@.contains_key(url)
                &&& r.tables@[url].sha3_256.info == info
                &&& r.tables@[url].sha3_256.header == header
                &&& r.tables@[url].sha3_256.data == data
                &&& r.tables@[url].last_check == now
                &&& r.tables@[url].last_change == if old_state is Some
                    && old_state->Some_0.tables@.contains_key(url)
                    && old_state->Some_0.tables@[url].sha3_256.info == info
                    && old_state->Some_0.tables@[url].sha3_256.header == header
                    && old_state->Some_0.tables@[url].sha3_256.data == data {
                    old_state->Some_0.tables@[url].last_change
                } else {
                    now
                }
            },
{
    let ghost all = tables@.map_values(|t: TrackedTable| t@);
    let ghost old = old_tables(old_state);
    let mut states: SortedMap<TableState> = SortedMap::new();
    let mut i: usize = 0;
    while i < tables.len()
        invariant
            all == tables@.map_values(|t: TrackedTable| t@),
            old == old_tables(old_state),
            i <= tables@.len(),
            states@ == tracked_states(all.take(i as int), active_urls@, old, now),
        decreases tables.len() - i,
    {
        proof {
            assert(all.take(i + 1).drop_last() =~= all.take(i as int));
            assert(all.take(i + 1).last() == tables@[i as int]@);
        }
        let table: &TrackedTable = &tables[i];
        if active_urls.contains(table.url.as_str()) {
            match (&table.info, &table.header, &table.data) {
                (Some(info), Some(header), Some(data)) => {
                    let hashes = Sha3Hashes::of_contents(
                        info.as_str(),
                        header.as_str(),
                        data.as_str(),
                    );
                    let previous: Option<&TableState> = match old_state {
                        Some(s) => s.tables.get(table.url.as_str()),
                        None => None,
                    };
                    states.insert(table.url.clone(), check_table(hashes, previous, now));
                },
                _ => {},
            }
        }
        i += 1;
    }
    proof {
        assert(all.take(i as int) =~= all);
        assert forall|k: int|
            0 <= k < tables@.len() && active_urls@.contains((#[trigger] tables@[k]).url@)
                && tables@[k].info is Some && tables@[k].header is Some && tables@[k].data is Some
                && (forall|j: int|
                k < j < tables@.len() ==> (#[trigger] tables@[j]).url@ != tables@[k].url@) implies {
            let url = tables@[k].url@;
            let info = sha3_digest(encode_utf8(tables@[k].info->Some_0@));
            let header = sha3_digest(encode_utf8(tables@[k].header->Some_0@));
            let data = sha3_digest(encode_utf8(tables@[k].data->Some_0@));
            &&& states@.contains_key(url)
            &&& states@[url].sha3_256.info == info
            &&& states@[url].sha3_256.header == header
            &&& states@[url].sha3_256.data == data
            &&& states@[url].last_check == now
            &&& states@[url].last_change == if old_state is Some
                && old_state->Some_0.tables@.contains_key(url)
                && old_state->Some_0.tables@[url].sha3_256.info == info
                && old_state->Some_0.tables@[url].sha3_256.header == header
                && old_state->Some_0.tables@[url].sha3_256.data == data {
                old_state->Some_0.tables@[url].last_change
            } else {
                now
            }
        } by {
            assert(all[k] == tables@[k]@);
            assert forall|j: int| k < j < all.len() implies (#[trigger] all[j]).url != all[k].url by {
                assert(tables@[j].url@ != tables@[k].url@);
            }
            law_state_of_a_tracked_table(all, active_urls@, old, now, k);
        }
    }
    SyncState { global: GlobalState { last_sync: now }, tables: states }
}

/// The state holds only active tables, each checked now and changed either now or when
/// the old state says so.
pub proof fn law_state_holds_active_tables(
    tables: Seq<TrackedView>,
    active: Set<Seq<char>>,
    old: Map<Seq<char>, TableStateView>,
    now: Timestamp,
    url: Seq<char>,
)
    requires
        tracked_states(tables, active, old, now).contains_key(url),
    ensures
        active.contains(url),
        exists|i: int|
            0 <= i < tables.len() && (#[trigger] tables[i]).url == url && is_tracked(
                tables[i],
                active,
            ),
        tracked_states(tables, active, old, now)[url].last_check == now,
        tracked_states(tables, active, old, now)[url].last_change == now || (old.contains_key(url)
            && tracked_states(tables, active, old, now)[url].last_change == old[url].last_change),
    decreases tables.len(),
{
    let init = tables.drop_last();
    let t = tables.last();
    if is_tracked(t, active) && t.url == url {
        assert(tables[tables.len() - 1].url == url);
    } else {
        law_state_holds_active_tables(init, active, old, now, url);
        let i = choose|i: int|
            0 <= i < init.len() && (#[trigger] init[i]).url == url && is_tracked(init[i], active);
        assert(tables[i] == init[i]);
    }
}

/// Every active table whose three files could be read is in the state.
pub proof fn law_readable_active_table_is_in_state(
    tables: Seq<TrackedView>,
    active: Set<Seq<char>>,
    old: Map<Seq<char>, TableStateView>,
    now: Timestamp,
    i: int,
)
    requires
        0 <= i < tables.len(),
        is_tracked(tables[i], active),
    ensures
        tracked_states(tables, active, old, now).contains_key(tables[i].url),
    decreases tables.len(),
{
    if i < tables.len() - 1 {
        assert(tables.drop_last()[i] == tables[i]);
        law_readable_active_table_is_in_state(tables.drop_last(), active, old, now, i);
    }
}

/// A second run over the same files keeps every `last_change` of the first run.
pub proof fn law_unchanged_files_keep_last_change(
    tables: Seq<TrackedView>,
    active: Set<Seq<char>>,
    old: Map<Seq<char>, TableStateView>,
    first: Timestamp,
    second: Timestamp,
    url: Seq<char>,
)
    requires
        tracked_states(tables, active, old, first).contains_key(url),
    ensures
        ({
            let one = tracked_states(tables, active, old, first);
            let two = tracked_states(tables, active, one, second);
            &&& two.contains_key(url)
            &&& two[url].last_change == one[url].last_change
            &&& two[url].sha3_256 == one[url].sha3_256
            &&& two[url].last_check == second
        }),
{
    let one = tracked_states(tables, active, old, first);
    lemma_second_run(tables, active, old, one, first, second, url);
}

proof fn lemma_second_run(
    tables: Seq<TrackedView>,
    active: Set<Seq<char>>,
    old: Map<Seq<char>, TableStateView>,
    whole: Map<Seq<char>, TableStateView>,
    first: Timestamp,
    second: Timestamp,
    url: Seq<char>,
)
    requires
        tracked_states(tables, active, old, first).contains_key(url),
        whole.contains_key(url),
        whole[url] == tracked_states(tables, active, old, first)[url],
    ensures
        ({
            let one = tracked_states(tables, active, old, first);
            let two = tracked_states(tables, active, whole, second);
            &&& two.contains_key(url)
            &&& two[url].last_change == one[url].last_change
            &&& two[url].sha3_256 == one[url].sha3_256
            &&& two[url].last_check == second
        }),
    decreases tables.len(),
{
    let t = tables.last();
    if !(is_tracked(t, active) && t.url == url) {
        lemma_second_run(tables.drop_last(), active, old, whole, first, second, url);
    }
}

/// A table that is new to the state, or whose hashes differ from the old state, changed
/// now.
pub proof fn law_changed_files_change_now(
    hashes: HashesView,
    old: Option<TableStateView>,
    now: Timestamp,
)
    requires
        old is None || old->Some_0.sha3_256 != hashes,
    ensures
        checked_state(hashes, old, now).last_change == now,
        checked_state(hashes, old, now).last_check == now,
{
}

/// In the state of a table whose three files could be read, `info` is the digest of the UTF-8
/// bytes of its `info.json`, `header` that of its `header.json` and `data` that of its
/// `data.json`. It was checked now; it changed when the old state says, where that has the
/// same three digests, and now otherwise. Of several directories of one table the last counts.
pub proof fn law_state_of_a_tracked_table(
    tables: Seq<TrackedView>,
    active: Set<Seq<char>>,
    old: Map<Seq<char>, TableStateView>,
    now: Timestamp,
    i: int,
)
    requires
        0 <= i < tables.len(),
        active.contains(tables[i].url),
        tables[i].info is Some,
        tables[i].header is Some,
        tables[i].data is Some,
        forall|j: int|
            i < j < tables.len() ==> (#[trigger] tables[j]).url != tables[i].url
                || tables[j].info is None || tables[j].header is None || tables[j].data is None,
    ensures
        tracked_states(tables, active, old, now).contains_key(tables[i].url),
        ({
            let url = tables[i].url;
            let info = sha3_digest(encode_utf8(tables[i].info->Some_0));
            let header = sha3_digest(encode_utf8(tables[i].header->Some_0));
            let data = sha3_digest(encode_utf8(tables[i].data->Some_0));
            let state = tracked_states(tables, active, old, now)[url];
            &&& state.sha3_256.info == info
            &&& state.sha3_256.header == header
            &&& state.sha3_256.data == data
            &&& state.last_check == now
            &&& state.last_change == if old.contains_key(url) && old[url].sha3_256.info == info
                && old[url].sha3_256.header == header && old[url].sha3_256.data == data {
                old[url].last_change
            } else {
                now
            }
        }),
    decreases tables.len(),
{
    let init = tables.drop_last();
    if i < init.len() {
        assert(init[i] == tables[i]);
        assert forall|j: int| i < j < init.len() implies (#[trigger] init[j]).url != init[i].url
            || init[j].info is None || init[j].header is None || init[j].data is None by {
            assert(init[j] == tables[j]);
        }
        law_state_of_a_tracked_table(init, active, old, now, i);
        assert(tables[tables.len() - 1] == tables.last());
    } else if old.contains_key(tables[i].url) {
        let hashes = content_hashes(
            tables[i].info->Some_0,
            tables[i].header->Some_0,
            tables[i].data->Some_0,
        );
        if old[tables[i].url].sha3_256.info == hashes.info && old[tables[i].url].sha3_256.header
            == hashes.header && old[tables[i].url].sha3_256.data == hashes.data {
            assert(old[tables[i].url].sha3_256 =~= hashes);
        }
    }
}

/// Only an active table whose three files could be read is in the state.
pub proof fn law_other_tables_are_not_in_state(
    tables: Seq<TrackedView>,
    active: Set<Seq<char>>,
    old: Map<Seq<char>, TableStateView>,
    now: Timestamp,
    url: Seq<char>,
)
    requires
        !active.contains(url) || forall|i: int|
            0 <= i < tables.len() && (#[trigger] tables[i]).url == url ==> tables[i].info is None
                || tables[i].header is None || tables[i].data is None,
    ensures
        !tracked_states(tables, active, old, now).contains_key(url),
    decreases tables.len(),
{
    if tables.len() > 0 {
        let init = tables.drop_last();
        if active.contains(url) {
            assert forall|i: int| 0 <= i < init.len() && (#[trigger] init[i]).url == url implies init[i].info is None
                || init[i].header is None || init[i].data is None by {
                assert(init[i] == tables[i]);
            }
            assert(tables[tables.len() - 1] == tables.last());
        }
        law_other_tables_are_not_in_state(init, active, old, now, url);
    }
}

/// What is compared and kept of hashes, states and tables is what their fields hold, each
/// under its own name.
pub proof fn law_states_by_field(hashes: Sha3Hashes, state: TableState, table: TrackedTable)
    ensures
        hashes@.info == hashes.info@,
        hashes@.header == hashes.header@,
        hashes@.data == hashes.data@,
        state@.last_check == state.last_check,
        state@.last_change == state.last_change,
        state@.sha3_256.info == state.sha3_256.info@,
        state@.sha3_256.header == state.sha3_256.header@,
        state@.sha3_256.data == state.sha3_256.data@,
        table@.url == table.url@,
        table@.info == string_view(table.info),
        table@.header == string_view(table.header),
        table@.data == string_view(table.data),
{
}

/// The old tables are those of the old state, and none where there is no old state.
pub proof fn law_old_tables(state: &SyncState)
    ensures
        old_tables(None) == Map::<Seq<char>, TableStateView>::empty(),
        old_tables(Some(state)) == state.tables@,
{
}

/// A table is checked now, with the hashes given; it changed when it did before where all
/// three hashes are those of before, and now otherwise.
pub proof fn law_checked_table(hashes: HashesView, old: TableStateView, now: Timestamp)
    ensures
        checked_state(hashes, None, now).last_change == now,
        checked_state(hashes, None, now).last_check == now,
        checked_state(hashes, None, now).sha3_256 == hashes,
        checked_state(hashes, Some(old), now).last_check == now,
        checked_state(hashes, Some(old), now).sha3_256 == hashes,
        checked_state(hashes, Some(old), now).last_change == if old.sha3_256.info == hashes.info
            && old.sha3_256.header == hashes.header && old.sha3_256.data == hashes.data {
            old.last_change
        } else {
            now
        },
{
    if old.sha3_256.info == hashes.info && old.sha3_256.header == hashes.header
        && old.sha3_256.data == hashes.data {
        assert(old.sha3_256 =~= hashes);
    }
}

/// A byte is written as two lowercase hex digits, the upper half first.
pub proof fn law_bytes_in_hex(bytes: Seq<u8>, i: int)
    ensures
        hex_of(bytes).len() == 2 * bytes.len(),
        0 <= i < bytes.len() ==> hex_of(bytes)[2 * i] == "0123456789abcdef"@[bytes[i] as int / 16],
        0 <= i < bytes.len() ==> hex_of(bytes)[2 * i + 1] == "0123456789abcdef"@[bytes[i] as int
            % 16],
{
    if 0 <= i < bytes.len() {
        assert((2 * i) / 2 == i && (2 * i) % 2 == 0);
        assert((2 * i + 1) / 2 == i && (2 * i + 1) % 2 == 1);
        lemma_digit_of(bytes[i] / 16);
        lemma_digit_of(bytes[i] % 16);
    }
}

proof fn lemma_digit_of(v: u8)
    requires
        v < 16,
    ensures
        hex_digit(v) == "0123456789abcdef"@[v as int],
{
    reveal_strlit("0123456789abcdef");
    let digits = "0123456789abcdef"@;
    assert(digits[0] == '0' && digits[1] == '1' && digits[2] == '2' && digits[3] == '3' && digits[4]
        == '4' && digits[5] == '5' && digits[6] == '6' && digits[7] == '7' && digits[8] == '8'
        && digits[9] == '9' && digits[10] == 'a' && digits[11] == 'b' && digits[12] == 'c'
        && digits[13] == 'd' && digits[14] == 'e' && digits[15] == 'f');
}

proof fn lemma_value_of(b: u8, v: int)
    requires
        0 <= v < 16,
        b == "0123456789abcdef"@[v] as u8 || b == "0123456789ABCDEF"@[v] as u8,
    ensures
        hex_value(b) == Some(v as u8),
{
    reveal_strlit("0123456789abcdef");
    reveal_strlit("0123456789ABCDEF");
    let lower = "0123456789abcdef"@;
    let upper = "0123456789ABCDEF"@;
    assert(lower[0] == '0' && lower[1] == '1' && lower[2] == '2' && lower[3] == '3' && lower[4]
        == '4' && lower[5] == '5' && lower[6] == '6' && lower[7] == '7' && lower[8] == '8'
        && lower[9] == '9' && lower[10] == 'a' && lower[11] == 'b' && lower[12] == 'c' && lower[13]
        == 'd' && lower[14] == 'e' && lower[15] == 'f');
    assert(upper[0] == '0' && upper[1] == '1' && upper[2] == '2' && upper[3] == '3' && upper[4]
        == '4' && upper[5] == '5' && upper[6] == '6' && upper[7] == '7' && upper[8] == '8'
        && upper[9] == '9' && upper[10] == 'A' && upper[11] == 'B' && upper[12] == 'C' && upper[13]
        == 'D' && upper[14] == 'E' && upper[15] == 'F');
}

proof fn lemma_no_value_of(b: u8)
    requires
        forall|v: int| 0 <= v < 22 ==> b != #[trigger] "0123456789abcdefABCDEF"@[v] as u8,
    ensures
        hex_value(b) is None,
{
    reveal_strlit("0123456789abcdefABCDEF");
    let digits = "0123456789abcdefABCDEF"@;
    let v: int = if b <= 0x39 {
        b - 0x30
    } else if b <= 0x46 {
        b - 0x41 + 16
    } else {
        b - 0x61 + 10
    };
    assert(digits[0] == '0' && digits[1] == '1' && digits[2] == '2' && digits[3] == '3' && digits[4]
        == '4' && digits[5] == '5' && digits[6] == '6' && digits[7] == '7' && digits[8] == '8'
        && digits[9] == '9' && digits[10] == 'a' && digits[11] == 'b' && digits[12] == 'c'
        && digits[13] == 'd' && digits[14] == 'e' && digits[15] == 'f' && digits[16] == 'A'
        && digits[17] == 'B' && digits[18] == 'C' && digits[19] == 'D' && digits[20] == 'E'
        && digits[21] == 'F');
    if hex_value(b) is Some {
        assert(b == digits[v] as u8);
    }
}

proof fn lemma_pairs_of_digits(s: Seq<u8>, values: Seq<int>, n: int)
    requires
        0 <= n,
        2 * n <= s.len(),
        2 * n <= values.len(),
        forall|i: int|
            0 <= i < 2 * n ==> 0 <= #[trigger] values[i] < 16 && (s[i]
                == "0123456789abcdef"@[values[i]] as u8 || s[i] == "0123456789ABCDEF"@[values[i]] as u8),
    ensures
        hex_bytes(s, n) is Ok,
        hex_bytes(s, n)->Ok_0.len() == n,
        forall|k: int|
            0 <= k < n ==> #[trigger] hex_bytes(s, n)->Ok_0[k] == 16 * values[2 * k] + values[2 * k
                + 1],
    decreases n,
{
    if n > 0 {
        lemma_pairs_of_digits(s, values, n - 1);
        assert(0 <= values[2 * n - 2] < 16 && 0 <= values[2 * n - 1] < 16);
        lemma_value_of(s[2 * n - 2], values[2 * n - 2]);
        lemma_value_of(s[2 * n - 1], values[2 * n - 1]);
    }
}

/// Sixty-four hex digits, of either case, are read as thirty-two bytes, each sixteen times the
/// value of the one digit and once that of the next.
pub proof fn law_hex_is_read(s: Seq<u8>, values: Seq<int>, k: int)
    requires
        s.len() == 64,
        values.len() == 64,
        forall|i: int|
            0 <= i < 64 ==> 0 <= #[trigger] values[i] < 16 && (s[i]
                == "0123456789abcdef"@[values[i]] as u8 || s[i] == "0123456789ABCDEF"@[values[i]] as u8),
        0 <= k < 32,
    ensures
        hash_of_hex(s) is Ok,
        hash_of_hex(s)->Ok_0.len() == 32,
        hash_of_hex(s)->Ok_0[k] == 16 * values[2 * k] + values[2 * k + 1],
{
    lemma_pairs_of_digits(s, values, 32);
}

/// A text of another length is no hash, and the error says how long it is.
pub proof fn law_wrong_length_is_reported(s: Seq<u8>)
    requires
        s.len() != 64,
    ensures
        hash_of_hex(s) == Err::<Seq<u8>, Seq<char>>(
            "expected 64 hex characters, got "@ + decimal(s.len()),
        ),
{
}

/// Where a pair is not made of two hex digits, the text is no hash, and the error shows the
/// first such pair, or says that it is not text.
pub proof fn law_first_wrong_pair_is_reported(s: Seq<u8>, values: Seq<int>, k: int)
    requires
        s.len() == 64,
        0 <= k < 32,
        values.len() == 2 * k,
        forall|i: int|
            0 <= i < 2 * k ==> 0 <= #[trigger] values[i] < 16 && (s[i]
                == "0123456789abcdef"@[values[i]] as u8 || s[i] == "0123456789ABCDEF"@[values[i]] as u8),
        (forall|v: int| 0 <= v < 22 ==> s[2 * k] != #[trigger] "0123456789abcdefABCDEF"@[v] as u8)
            || (forall|v: int|
            0 <= v < 22 ==> s[2 * k + 1] != #[trigger] "0123456789abcdefABCDEF"@[v] as u8),
    ensures
        hash_of_hex(s) == Err::<Seq<u8>, Seq<char>>(
            if valid_utf8(seq![s[2 * k], s[2 * k + 1]]) {
                "invalid hex: "@ + decode_utf8(seq![s[2 * k], s[2 * k + 1]])
            } else {
                "invalid UTF-8 in hex string"@
            },
        ),
{
    lemma_pairs_of_digits(s, values, k);
    if forall|v: int| 0 <= v < 22 ==> s[2 * k] != #[trigger] "0123456789abcdefABCDEF"@[v] as u8 {
        lemma_no_value_of(s[2 * k]);
    } else {
        lemma_no_value_of(s[2 * k + 1]);
    }
    assert(hex_bytes(s, k + 1) is Err);
    lemma_error_stays(s, k + 1, 32);
}

/// What reading a hash comes to is the hash, or the error.
pub proof fn law_result_of_reading(hash: Sha3Hash, error: String)
    ensures
        hash_result(Ok(hash)) == Ok::<Seq<u8>, Seq<char>>(hash@),
        hash_result(Err(error)) == Err::<Seq<u8>, Seq<char>>(error@),
{
}

} // verus!
