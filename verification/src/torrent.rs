//! A torrent as the announcer keeps it: what its metainfo file says, and the
//! state of its fake uploading.

use std::path::PathBuf;
use std::time::Instant;
use vstd::prelude::*;
use vstd::string::*;
use vstd::utf8::*;
use crate::bencode::{
    dict_get, dict_lookup, encode, encode_bencode_value, lemma_decode_encode, lemma_dict_get_member,
    lemma_model_list, lemma_parse_well_formed, model_dict, model_list, parse_value, well_formed,
    Bencode, BencodeDecoder, BencodeDecoderError, BencodeValue,
};
use crate::text::{
    decimal, escape_quotes, has_prefix, hex_encode, hex_lower, percent_encoded, percent_encoding,
    push_decimal, push_escaped_quotes,
};
use crate::tracker::{is_supported_url, supported_url};
use crate::config::Config;

verus! {

#[verifier::external_type_specification]
#[verifier::external_body]
pub struct ExInstant(std::time::Instant);

#[verifier::external_type_specification]
#[verifier::external_body]
pub struct ExPathBuf(std::path::PathBuf);

#[verifier::external_type_specification]
#[verifier::external_body]
pub struct ExIoError(std::io::Error);

/// `Instant` is `Copy`: its clone is the same instant.
pub assume_specification[ <std::time::Instant as std::clone::Clone>::clone ](i: &Instant) -> (r:
    Instant)
    ensures
        r == *i,
;

/// A clone of a path (`PathBuf::clone`); nothing is stated of it.
pub assume_specification[ <std::path::PathBuf as std::clone::Clone>::clone ](p: &PathBuf) -> PathBuf;

/// The current instant (`std::time::Instant::now`); nothing is known of it.
#[verifier::external_body]
fn instant_now() -> Instant {
    Instant::now()
}

/// Whole seconds since `t` (`Instant::elapsed`, read in seconds). It depends
/// on the clock, so nothing is stated of it.
#[verifier::external_body]
fn elapsed_secs(t: &Instant) -> u64 {
    t.elapsed().as_secs()
}

/// A random number in `low..high` (`fastrand::u32`, which panics on an empty
/// range and otherwise returns a number of the range).
#[verifier::external_body]
fn random_u32_in(low: u32, high: u32) -> (r: u32)
    requires
        low < high,
    ensures
        low <= r < high,
{
    fastrand::u32(low..high)
}

/// Errors that can occur when parsing a Torrent struct from Bencode.
#[derive(Debug)]
pub enum TorrentError {
    BencodeError(BencodeDecoderError),
    IoError(std::io::Error),
    MissingField(&'static str),
    InvalidFieldType(&'static str),
    ParseError(String),
    Utf8ConversionError(&'static str),
}

/// What a `TorrentError` says, as text.
pub enum TorrentFailure {
    Bencode(BencodeDecoderError),
    Io,
    MissingField(Seq<char>),
    InvalidFieldType(Seq<char>),
    Parse(Seq<char>),
    Utf8Conversion(Seq<char>),
}

impl View for TorrentError {
    type V = TorrentFailure;

    open spec fn view(&self) -> TorrentFailure {
        match self {
            TorrentError::BencodeError(e) => TorrentFailure::Bencode(*e),
            TorrentError::IoError(_) => TorrentFailure::Io,
            TorrentError::MissingField(f) => TorrentFailure::MissingField(f@),
            TorrentError::InvalidFieldType(f) => TorrentFailure::InvalidFieldType(f@),
            TorrentError::ParseError(m) => TorrentFailure::Parse(m@),
            TorrentError::Utf8ConversionError(f) => TorrentFailure::Utf8Conversion(f@),
        }
    }
}

impl From<BencodeDecoderError> for TorrentError {
    fn from(err: BencodeDecoderError) -> (r: Self) {
        TorrentError::BencodeError(err)
    }
}

impl vstd::std_specs::convert::FromSpecImpl<BencodeDecoderError> for TorrentError {
    open spec fn obeys_from_spec() -> bool {
        true
    }

    open spec fn from_spec(err: BencodeDecoderError) -> TorrentError {
        TorrentError::BencodeError(err)
    }
}

/// To only keep minimal torrent info in RAM.
#[derive(Debug, PartialEq, Eq, Clone)]
pub struct Torrent {
    pub name: String,
    pub urls: Vec<String>,
    pub length: u64,
    pub private: bool,
    /// Total of fake uploaded data since the start
    pub uploaded: u64,
    /// Last announce to the tracker
    pub last_announce: Instant,
    pub info_hash: [u8; 20],
    /// URL encoded hash that is used to build the tracker query
    pub info_hash_urlencoded: String,
    /// Number of seeders
    pub seeders: u16,
    /// Number of leechers
    pub leechers: u16,
    /// The next upload speed that will be announced.
    pub next_upload_speed: u32,
    /// Current interval after the last announce
    pub interval: u64,
    pub error_count: u16,
    pub encoding: Option<String>,
    /// Minimum announce interval the tracker asks for.
    pub min_interval: Option<u64>,
    /// A string that the client should send back on its next announcements.
    pub tracker_id: Option<String>,
    /// Source file path
    pub source_path: Option<PathBuf>,
}

/// The texts of a sequence of strings.
pub open spec fn texts(v: Seq<String>) -> Seq<Seq<char>> {
    v.map_values(|u: String| u@)
}

impl Torrent {
    /// The stricter of `interval` and `min_interval` (an absent minimum counts as 0).
    pub open spec fn spec_effective_interval(self) -> u64 {
        let m = match self.min_interval {
            Some(m) => m,
            None => 0,
        };
        if self.interval >= m {
            self.interval
        } else {
            m
        }
    }

    /// Leechers to upload to: at least one leecher beside a seeder, or two leechers.
    pub open spec fn spec_can_upload(self) -> bool {
        (self.seeders > 0 && self.leechers > 0) || self.leechers > 1
    }

    /// Effective announce interval: the stricter of `interval` and `min_interval`.
    /// Clients must not re-announce more frequently than `min_interval`.
    pub fn effective_interval(&self) -> (r: u64)
        ensures
            r == self.spec_effective_interval(),
            r >= self.interval,
            self.min_interval matches Some(m) ==> r >= m,
            r == self.interval || self.min_interval == Some(r),
    {
        let m = match self.min_interval {
            Some(m) => m,
            None => 0,
        };
        if self.interval >= m {
            self.interval
        } else {
            m
        }
    }

    /// Whether `elapsed` seconds since the last announce allow announcing again.
    pub fn announce_due(&self, elapsed: u64) -> (r: bool)
        ensures
            r == (elapsed >= self.spec_effective_interval()),
    {
        elapsed >= self.effective_interval()
    }

    /// Tells if we can announce to tracker(s) depending on the last announce.
    /// The clock decides; with an effective interval of 0 it is always time.
    pub fn should_announce(&self) -> (r: bool)
        ensures
            self.spec_effective_interval() == 0 ==> r,
    {
        let elapsed = elapsed_secs(&self.last_announce);
        self.announce_due(elapsed)
    }

    /// Tells if we can upload (need leechers)
    pub fn can_upload(&self) -> (r: bool)
        ensures
            r == self.spec_can_upload(),
    {
        (self.seeders > 0 && self.leechers > 0) || self.leechers > 1
    }

    /// Picks the next upload speed, at random in `min_speed..available_speed`,
    /// when there are leechers to upload to and the range is sound; returns 0
    /// and changes nothing otherwise.
    pub fn uploaded(&mut self, min_speed: u32, available_speed: u32) -> (r: u32)
        requires
            !(old(self).spec_can_upload() && 0 < min_speed && min_speed == available_speed),
        ensures
            if old(self).spec_can_upload() && 0 < min_speed <= available_speed {
                &&& min_speed <= r < available_speed
                &&& *final(self) == (Torrent { next_upload_speed: r, ..*old(self) })
            } else {
                r == 0 && *final(self) == *old(self)
            },
    {
        if self.can_upload() && (0 < min_speed && min_speed <= available_speed) {
            self.next_upload_speed = random_u32_in(min_speed, available_speed);
            self.next_upload_speed
        } else {
            0
        }
    }

    /// Picks the next upload speed between the configured rates.
    pub fn compute_speeds(&mut self, config: &Config)
        requires
            !(old(self).spec_can_upload() && 0 < config.min_upload_rate && config.min_upload_rate
                == config.max_upload_rate),
        ensures
            if old(self).spec_can_upload() && 0 < config.min_upload_rate
                <= config.max_upload_rate {
                &&& config.min_upload_rate <= final(self).next_upload_speed
                    < config.max_upload_rate
                &&& *final(self) == (Torrent {
                    next_upload_speed: final(self).next_upload_speed,
                    ..*old(self)
                })
            } else {
                *final(self) == *old(self)
            },
    {
        self.uploaded(config.min_upload_rate, config.max_upload_rate);
    }
}

/// `true` or `false`.
pub open spec fn bool_text(b: bool) -> Seq<char> {
    if b {
        "true"@
    } else {
        "false"@
    }
}

/// The URLs as a comma-separated list of quoted strings.
pub open spec fn json_urls(urls: Seq<Seq<char>>) -> Seq<char>
    decreases urls.len(),
{
    if urls.len() == 0 {
        Seq::empty()
    } else {
        let sep = if urls.len() > 1 {
            ", "@
        } else {
            Seq::empty()
        };
        json_urls(urls.drop_last()) + sep + "\""@ + urls.last() + "\""@
    }
}

impl Torrent {
    /// The JSON line that describes the torrent in the statistics file.
    pub open spec fn json(self) -> Seq<char> {
        "\t{\"name\": \""@ + escape_quotes(self.name@) + "\", \"length\": "@ + decimal(
            self.length as nat,
        ) + ", \"private\": "@ + bool_text(self.private) + ", \"uploaded\": "@ + decimal(
            self.uploaded as nat,
        ) + ", \"seeders\": "@ + decimal(self.seeders as nat) + ", \"leechers\": "@ + decimal(
            self.leechers as nat,
        ) + ", \"next_upload_speed\": "@ + decimal(self.next_upload_speed as nat)
            + ", \"info_hash\": \""@ + hex_lower(self.info_hash@) + "\", \"urls\": ["@
            + json_urls(texts(self.urls@)) + "]}\n"@
    }

    /// The JSON line that describes the torrent in the statistics file.
    pub fn to_json(&self) -> (r: String)
        ensures
            r@ == self.json(),
    {
        let mut result = String::new();
        result.append("\t{\"name\": \"");
        push_escaped_quotes(&mut result, self.name.as_str());
        result.append("\", \"length\": ");
        push_decimal(&mut result, self.length);
        result.append(", \"private\": ");
        if self.private {
            result.append("true");
        } else {
            result.append("false");
        }
        result.append(", \"uploaded\": ");
        push_decimal(&mut result, self.uploaded);
        result.append(", \"seeders\": ");
        push_decimal(&mut result, self.seeders as u64);
        result.append(", \"leechers\": ");
        push_decimal(&mut result, self.leechers as u64);
        result.append(", \"next_upload_speed\": ");
        push_decimal(&mut result, self.next_upload_speed as u64);
        result.append(", \"info_hash\": \"");
        let hex = hex_encode(&self.info_hash);
        result.append(hex.as_str());
        result.append("\", \"urls\": [");
        let ghost head = result@;
        let ghost all = texts(self.urls@);
        let mut index: usize = 0;
        assert(all.take(0) =~= Seq::<Seq<char>>::empty());
        while index < self.urls.len()
            invariant
                index <= self.urls@.len(),
                all == texts(self.urls@),
                result@ == head + json_urls(all.take(index as int)),
            decreases self.urls@.len() - index,
        {
            if index > 0 {
                result.append(", ");
            }
            result.append("\"");
            result.append(self.urls[index].as_str());
            result.append("\"");
            assert(all.take(index + 1).drop_last() =~= all.take(index as int));
            assert(all[index as int] == self.urls@[index as int]@);
            index = index + 1;
            assert(result@ =~= head + json_urls(all.take(index as int)));
        }
        assert(all.take(index as int) =~= all);
        result.append("]}\n");
        assert(result@ =~= self.json());
        result
    }
}

/// Text as valid UTF-8 (`std::str::from_utf8`): present exactly when the bytes
/// are valid UTF-8, and then the text they encode.
#[verifier::external_body]
fn utf8_text(b: &[u8]) -> (r: Option<&str>)
    ensures
        r is Some <==> valid_utf8(b@),
        r matches Some(s) ==> s@ == decode_utf8(b@),
{
    std::str::from_utf8(b).ok()
}

/// The bytes of a dictionary key written as text.
pub open spec fn key(name: &str) -> Seq<u8> {
    name.spec_bytes()
}

/// What a metainfo file tells of a torrent.
pub struct MetaView {
    pub name: Seq<char>,
    pub urls: Seq<Seq<char>>,
    pub length: int,
    pub private: bool,
    pub encoding: Option<Seq<char>>,
}

/// What reading a decoded metainfo file comes to.
pub enum Metainfo {
    Valid(MetaView),
    Invalid(TorrentFailure),
    /// The file lengths add up past `u64::MAX`.
    LengthOverflow,
}

/// One announce URL considered: kept when it is new and supported.
pub open spec fn url_step(urls: Seq<Seq<char>>, bytes: Seq<u8>, what: Seq<char>) -> Result<
    Seq<Seq<char>>,
    TorrentFailure,
> {
    if !valid_utf8(bytes) {
        Err(TorrentFailure::Utf8Conversion(what))
    } else {
        let u = decode_utf8(bytes);
        if !urls.contains(u) && supported_url(u) {
            Ok(urls.push(u))
        } else {
            Ok(urls)
        }
    }
}

/// The URLs of one tier of `announce-list` considered in turn; items that are
/// not byte strings are skipped.
pub open spec fn tier_urls(urls: Seq<Seq<char>>, tier: Seq<Bencode>) -> Result<
    Seq<Seq<char>>,
    TorrentFailure,
>
    decreases tier.len(),
{
    if tier.len() == 0 {
        Ok(urls)
    } else {
        match tier_urls(urls, tier.drop_last()) {
            Err(f) => Err(f),
            Ok(u) => match tier.last() {
                Bencode::Bytes(b) => url_step(u, b, "announce-list URL"@),
                _ => Ok(u),
            },
        }
    }
}

/// The tiers of `announce-list` in turn; tiers that are not lists are skipped.
pub open spec fn tiers_urls(urls: Seq<Seq<char>>, tiers: Seq<Bencode>) -> Result<
    Seq<Seq<char>>,
    TorrentFailure,
>
    decreases tiers.len(),
{
    if tiers.len() == 0 {
        Ok(urls)
    } else {
        match tiers_urls(urls, tiers.drop_last()) {
            Err(f) => Err(f),
            Ok(u) => match tiers.last() {
                Bencode::List(t) => tier_urls(u, t),
                _ => Ok(u),
            },
        }
    }
}

/// The supported announce URLs, `announce-list` first, then `announce`,
/// each kept once in the order first met.
pub open spec fn announce_urls(top: Seq<(Seq<u8>, Bencode)>) -> Result<
    Seq<Seq<char>>,
    TorrentFailure,
> {
    let listed = match dict_get(top, key("announce-list")) {
        Some(Bencode::List(tiers)) => tiers_urls(Seq::empty(), tiers),
        _ => Ok(Seq::empty()),
    };
    match listed {
        Err(f) => Err(f),
        Ok(u) => match dict_get(top, key("announce")) {
            Some(Bencode::Bytes(b)) => url_step(u, b, "announce URL"@),
            _ => Ok(u),
        },
    }
}

/// Adding up the lengths of the entries of `files`.
pub enum LengthSum {
    Total(int),
    Failed(TorrentFailure),
    Overflow,
}

/// The total length of the entries of `files`, in order, stopping at the
/// first bad entry or when the sum passes `u64::MAX`.
pub open spec fn files_length(files: Seq<Bencode>) -> LengthSum
    decreases files.len(),
{
    if files.len() == 0 {
        LengthSum::Total(0)
    } else {
        match files_length(files.drop_last()) {
            LengthSum::Total(t) => match files.last() {
                Bencode::Dict(fd) => match dict_get(fd, key("length")) {
                    Some(Bencode::Int(l)) => if l < 0 {
                        LengthSum::Failed(TorrentFailure::Parse("file.length is negative"@))
                    } else if t + l > u64::MAX {
                        LengthSum::Overflow
                    } else {
                        LengthSum::Total(t + l)
                    },
                    _ => LengthSum::Failed(
                        TorrentFailure::MissingField("file.length in multi-file torrent"@),
                    ),
                },
                _ => LengthSum::Failed(
                    TorrentFailure::InvalidFieldType("file entry in multi-file torrent"@),
                ),
            },
            other => other,
        }
    }
}

/// What the `info` dictionary (and the `encoding` of the top level) says,
/// once the announce URLs are known.
pub open spec fn info_description(
    top: Seq<(Seq<u8>, Bencode)>,
    info: Seq<(Seq<u8>, Bencode)>,
    urls: Seq<Seq<char>>,
) -> Metainfo {
    match dict_get(info, key("name")) {
        None => Metainfo::Invalid(TorrentFailure::MissingField("info.name"@)),
        Some(Bencode::Bytes(b)) => if !valid_utf8(b) {
            Metainfo::Invalid(TorrentFailure::Utf8Conversion("info.name"@))
        } else {
            let single = match dict_get(info, key("length")) {
                Some(Bencode::Int(l)) => if l < 0 {
                    Err(TorrentFailure::Parse("info.length is negative"@))
                } else {
                    Ok(l)
                },
                _ => Ok(0),
            };
            match single {
                Err(f) => Metainfo::Invalid(f),
                Ok(l0) => {
                    let total = match dict_get(info, key("files")) {
                        Some(Bencode::List(files)) => files_length(files),
                        _ => LengthSum::Total(l0),
                    };
                    match total {
                        LengthSum::Failed(f) => Metainfo::Invalid(f),
                        LengthSum::Overflow => Metainfo::LengthOverflow,
                        LengthSum::Total(length) => {
                            let private = dict_get(info, key("private")) == Some(Bencode::Int(1));
                            match dict_get(top, key("encoding")) {
                                Some(Bencode::Bytes(e)) => if !valid_utf8(e) {
                                    Metainfo::Invalid(TorrentFailure::Utf8Conversion("encoding"@))
                                } else {
                                    Metainfo::Valid(
                                        MetaView {
                                            name: decode_utf8(b),
                                            urls,
                                            length,
                                            private,
                                            encoding: Some(decode_utf8(e)),
                                        },
                                    )
                                },
                                _ => Metainfo::Valid(
                                    MetaView {
                                        name: decode_utf8(b),
                                        urls,
                                        length,
                                        private,
                                        encoding: None,
                                    },
                                ),
                            }
                        },
                    }
                },
            }
        },
        Some(_) => Metainfo::Invalid(TorrentFailure::InvalidFieldType("info.name"@)),
    }
}

/// What a decoded metainfo file says of its torrent.
pub open spec fn metainfo(top: Bencode) -> Metainfo {
    match top {
        Bencode::Dict(td) => match announce_urls(td) {
            Err(f) => Metainfo::Invalid(f),
            Ok(urls) => if urls.len() == 0 {
                Metainfo::Invalid(TorrentFailure::MissingField("announce or announce-list"@))
            } else {
                match dict_get(td, key("info")) {
                    None => Metainfo::Invalid(TorrentFailure::MissingField("info"@)),
                    Some(Bencode::Dict(info)) => info_description(td, info, urls),
                    Some(_) => Metainfo::Invalid(
                        TorrentFailure::InvalidFieldType("info is not a dictionary"@),
                    ),
                }
            },
        },
        _ => Metainfo::Invalid(TorrentFailure::InvalidFieldType("Top-level is not a dictionary"@)),
    }
}

/// The text of an optional string.
pub open spec fn option_text(o: Option<String>) -> Option<Seq<char>> {
    match o {
        Some(s) => Some(s@),
        None => None,
    }
}

proof fn lemma_tier_urls_failed(u0: Seq<Seq<char>>, s: Seq<Bencode>, j: int, k: int)
    requires
        0 <= j <= k <= s.len(),
        tier_urls(u0, s.take(j)) is Err,
    ensures
        tier_urls(u0, s.take(k)) == tier_urls(u0, s.take(j)),
    decreases k - j,
{
    if k > j {
        lemma_tier_urls_failed(u0, s, j, k - 1);
        assert(s.take(k).drop_last() =~= s.take(k - 1));
    }
}

proof fn lemma_tiers_urls_failed(u0: Seq<Seq<char>>, s: Seq<Bencode>, j: int, k: int)
    requires
        0 <= j <= k <= s.len(),
        tiers_urls(u0, s.take(j)) is Err,
    ensures
        tiers_urls(u0, s.take(k)) == tiers_urls(u0, s.take(j)),
    decreases k - j,
{
    if k > j {
        lemma_tiers_urls_failed(u0, s, j, k - 1);
        assert(s.take(k).drop_last() =~= s.take(k - 1));
    }
}

proof fn lemma_files_length_stopped(s: Seq<Bencode>, j: int, k: int)
    requires
        0 <= j <= k <= s.len(),
        !(files_length(s.take(j)) is Total),
    ensures
        files_length(s.take(k)) == files_length(s.take(j)),
    decreases k - j,
{
    if k > j {
        lemma_files_length_stopped(s, j, k - 1);
        assert(s.take(k).drop_last() =~= s.take(k - 1));
    }
}

/// Whether `urls` holds a string equal to `u`.
fn contains_text(urls: &Vec<String>, u: &String) -> (r: bool)
    ensures
        r == texts(urls@).contains(u@),
{
    let mut i: usize = 0;
    while i < urls.len()
        invariant
            i <= urls@.len(),
            forall|j: int| 0 <= j < i ==> urls@[j]@ != u@,
        decreases urls@.len() - i,
    {
        if urls[i] == *u {
            assert(texts(urls@)[i as int] == u@);
            return true;
        }
        i = i + 1;
    }
    assert forall|j: int| 0 <= j < texts(urls@).len() implies texts(urls@)[j] != u@ by {
        assert(texts(urls@)[j] == urls@[j]@);
    }
    false
}

/// Considers one announce URL (see `url_step`).
fn push_url(urls: &mut Vec<String>, bytes: &[u8], what: &'static str) -> (r: Result<
    (),
    TorrentError,
>)
    ensures
        match url_step(texts(old(urls)@), bytes@, what@) {
            Ok(u) => r is Ok && texts(final(urls)@) == u,
            Err(f) => r matches Err(e) && e@ == f,
        },
{
    match utf8_text(bytes) {
        None => Err(TorrentError::Utf8ConversionError(what)),
        Some(s) => {
            let u = String::from_str(s);
            if !contains_text(urls, &u) && is_supported_url(s) {
                let ghost before = urls@;
                urls.push(u);
                assert(texts(urls@) =~= texts(before).push(s@));
            }
            Ok(())
        },
    }
}

/// Considers the URLs of one tier (see `tier_urls`).
fn push_tier_urls(urls: &mut Vec<String>, tier: &Vec<BencodeValue>) -> (r: Result<
    (),
    TorrentError,
>)
    ensures
        match tier_urls(texts(old(urls)@), model_list(tier@)) {
            Ok(u) => r is Ok && texts(final(urls)@) == u,
            Err(f) => r matches Err(e) && e@ == f,
        },
{
    proof {
        lemma_model_list(tier@);
    }
    let ghost ml = model_list(tier@);
    let ghost u0 = texts(urls@);
    let mut i: usize = 0;
    assert(ml.take(0) =~= Seq::<Bencode>::empty());
    while i < tier.len()
        invariant
            i <= tier@.len(),
            ml == model_list(tier@),
            u0 == texts(old(urls)@),
            ml.len() == tier@.len(),
            forall|j: int| 0 <= j < tier@.len() ==> #[trigger] ml[j] == tier@[j].model(),
            tier_urls(u0, ml.take(i as int)) == Ok::<_, TorrentFailure>(texts(urls@)),
        decreases tier@.len() - i,
    {
        assert(ml.take(i + 1).drop_last() =~= ml.take(i as int));
        assert(ml.take(i + 1).last() == tier@[i as int].model());
        match &tier[i] {
            BencodeValue::ByteString(b) => {
                let ghost before = texts(urls@);
                match push_url(urls, b.as_slice(), "announce-list URL") {
                    Err(e) => {
                        proof {
                            assert(tier_urls(u0, ml.take(i + 1)) == url_step(
                                before,
                                b@,
                                "announce-list URL"@,
                            ));
                            lemma_tier_urls_failed(u0, ml, i + 1, ml.len() as int);
                            assert(ml.take(ml.len() as int) =~= ml);
                        }
                        return Err(e);
                    },
                    Ok(()) => {},
                }
            },
            _ => {},
        }
        i = i + 1;
    }
    assert(ml.take(i as int) =~= ml);
    Ok(())
}

/// The announce URLs of a top-level dictionary (see `announce_urls`).
fn collect_urls(top: &Vec<(Vec<u8>, BencodeValue)>) -> (r: Result<Vec<String>, TorrentError>)
    ensures
        match announce_urls(model_dict(top@)) {
            Ok(u) => r matches Ok(v) && texts(v@) == u,
            Err(f) => r matches Err(e) && e@ == f,
        },
{
    let mut urls: Vec<String> = Vec::new();
    assert(texts(urls@) =~= Seq::<Seq<char>>::empty());
    match dict_lookup(top, "announce-list".as_bytes()) {
        Some(BencodeValue::List(tiers)) => {
            proof {
                lemma_model_list(tiers@);
            }
            let ghost ml = model_list(tiers@);
            let ghost u0 = texts(urls@);
            let mut i: usize = 0;
            assert(ml.take(0) =~= Seq::<Bencode>::empty());
            while i < tiers.len()
                invariant
                    i <= tiers@.len(),
                    ml == model_list(tiers@),
                    ml.len() == tiers@.len(),
                    forall|j: int| 0 <= j < tiers@.len() ==> #[trigger] ml[j] == tiers@[j].model(),
                    u0 == Seq::<Seq<char>>::empty(),
                    dict_get(model_dict(top@), key("announce-list")) == Some(Bencode::List(ml)),
                    tiers_urls(u0, ml.take(i as int)) == Ok::<_, TorrentFailure>(texts(urls@)),
                decreases tiers@.len() - i,
            {
                assert(ml.take(i + 1).drop_last() =~= ml.take(i as int));
                assert(ml.take(i + 1).last() == tiers@[i as int].model());
                match &tiers[i] {
                    BencodeValue::List(t) => {
                        let ghost before = texts(urls@);
                        match push_tier_urls(&mut urls, t) {
                            Err(e) => {
                                proof {
                                    assert(tiers_urls(u0, ml.take(i + 1)) == tier_urls(
                                        before,
                                        model_list(t@),
                                    ));
                                    lemma_tiers_urls_failed(u0, ml, i + 1, ml.len() as int);
                                    assert(ml.take(ml.len() as int) =~= ml);
                                }
                                return Err(e);
                            },
                            Ok(()) => {},
                        }
                    },
                    _ => {},
                }
                i = i + 1;
            }
            assert(ml.take(i as int) =~= ml);
        },
        _ => {},
    }
    match dict_lookup(top, "announce".as_bytes()) {
        Some(BencodeValue::ByteString(b)) => {
            match push_url(&mut urls, b.as_slice(), "announce URL") {
                Err(e) => {
                    return Err(e);
                },
                Ok(()) => {},
            }
        },
        _ => {},
    }
    Ok(urls)
}

/// The running sum of file lengths.
enum LengthTotal {
    Total(u64),
    Failed(TorrentError),
    Overflow,
}

/// The total length of the entries of `files` (see `files_length`).
fn files_total(files: &Vec<BencodeValue>) -> (r: LengthTotal)
    ensures
        match (r, files_length(model_list(files@))) {
            (LengthTotal::Total(t), LengthSum::Total(st)) => t == st,
            (LengthTotal::Failed(e), LengthSum::Failed(f)) => e@ == f,
            (LengthTotal::Overflow, LengthSum::Overflow) => true,
            _ => false,
        },
{
    proof {
        lemma_model_list(files@);
    }
    let ghost ml = model_list(files@);
    let mut total: u64 = 0;
    let mut i: usize = 0;
    assert(ml.take(0) =~= Seq::<Bencode>::empty());
    while i < files.len()
        invariant
            i <= files@.len(),
            ml == model_list(files@),
            ml.len() == files@.len(),
            forall|j: int| 0 <= j < files@.len() ==> #[trigger] ml[j] == files@[j].model(),
            files_length(ml.take(i as int)) == LengthSum::Total(total as int),
        decreases files@.len() - i,
    {
        assert(ml.take(i + 1).drop_last() =~= ml.take(i as int));
        assert(ml.take(i + 1).last() == files@[i as int].model());
        let step: LengthTotal = match &files[i] {
            BencodeValue::Dictionary(fd) => match dict_lookup(fd, "length".as_bytes()) {
                Some(BencodeValue::Integer(l)) => {
                    if *l < 0 {
                        LengthTotal::Failed(
                            TorrentError::ParseError(String::from_str("file.length is negative")),
                        )
                    } else if total > u64::MAX - (*l as u64) {
                        LengthTotal::Overflow
                    } else {
                        LengthTotal::Total(total + *l as u64)
                    }
                },
                _ => LengthTotal::Failed(
                    TorrentError::MissingField("file.length in multi-file torrent"),
                ),
            },
            _ => LengthTotal::Failed(TorrentError::InvalidFieldType("file entry in multi-file torrent")),
        };
        match step {
            LengthTotal::Total(t) => {
                total = t;
            },
            other => {
                proof {
                    lemma_files_length_stopped(ml, i + 1, ml.len() as int);
                    assert(ml.take(ml.len() as int) =~= ml);
                }
                return other;
            },
        }
        i = i + 1;
    }
    assert(ml.take(i as int) =~= ml);
    LengthTotal::Total(total)
}

/// What reading a decoded metainfo file gave.
enum MetaRead {
    Valid { name: String, urls: Vec<String>, length: u64, private: bool, encoding: Option<String> },
    Invalid(TorrentError),
    LengthOverflow,
}

/// `r` is what `m` describes.
spec fn read_as(r: MetaRead, m: Metainfo) -> bool {
    match (r, m) {
        (MetaRead::Valid { name, urls, length, private, encoding }, Metainfo::Valid(v)) => {
            &&& name@ == v.name
            &&& texts(urls@) == v.urls
            &&& length == v.length
            &&& private == v.private
            &&& option_text(encoding) == v.encoding
        },
        (MetaRead::Invalid(e), Metainfo::Invalid(f)) => e@ == f,
        (MetaRead::LengthOverflow, Metainfo::LengthOverflow) => true,
        _ => false,
    }
}

/// Reads the `info` dictionary (see `info_description`).
fn read_info(
    top: &Vec<(Vec<u8>, BencodeValue)>,
    info: &Vec<(Vec<u8>, BencodeValue)>,
    urls: Vec<String>,
) -> (r: MetaRead)
    ensures
        read_as(r, info_description(model_dict(top@), model_dict(info@), texts(urls@))),
{
    let name = match dict_lookup(info, "name".as_bytes()) {
        None => {
            return MetaRead::Invalid(TorrentError::MissingField("info.name"));
        },
        Some(BencodeValue::ByteString(b)) => match utf8_text(b.as_slice()) {
            None => {
                return MetaRead::Invalid(TorrentError::Utf8ConversionError("info.name"));
            },
            Some(s) => String::from_str(s),
        },
        Some(_) => {
            return MetaRead::Invalid(TorrentError::InvalidFieldType("info.name"));
        },
    };
    let mut total_length: u64 = 0;
    match dict_lookup(info, "length".as_bytes()) {
        Some(BencodeValue::Integer(len)) => {
            if *len < 0 {
                return MetaRead::Invalid(
                    TorrentError::ParseError(String::from_str("info.length is negative")),
                );
            }
            total_length = *len as u64;
        },
        _ => {},
    }
    match dict_lookup(info, "files".as_bytes()) {
        Some(BencodeValue::List(files)) => match files_total(files) {
            LengthTotal::Total(t) => {
                total_length = t;
            },
            LengthTotal::Failed(e) => {
                return MetaRead::Invalid(e);
            },
            LengthTotal::Overflow => {
                return MetaRead::LengthOverflow;
            },
        },
        _ => {},
    }
    let private = match dict_lookup(info, "private".as_bytes()) {
        Some(BencodeValue::Integer(p)) => *p == 1,
        _ => false,
    };
    let encoding = match dict_lookup(top, "encoding".as_bytes()) {
        Some(BencodeValue::ByteString(e)) => match utf8_text(e.as_slice()) {
            None => {
                return MetaRead::Invalid(TorrentError::Utf8ConversionError("encoding"));
            },
            Some(s) => Some(String::from_str(s)),
        },
        _ => None,
    };
    MetaRead::Valid { name, urls, length: total_length, private, encoding }
}

/// Reads a decoded metainfo file (see `metainfo`).
fn read_metainfo(top: &BencodeValue) -> (r: MetaRead)
    ensures
        read_as(r, metainfo(top.model())),
{
    match top {
        BencodeValue::Dictionary(td) => {
            let urls = match collect_urls(td) {
                Err(e) => {
                    return MetaRead::Invalid(e);
                },
                Ok(u) => u,
            };
            if urls.len() == 0 {
                return MetaRead::Invalid(TorrentError::MissingField("announce or announce-list"));
            }
            match dict_lookup(td, "info".as_bytes()) {
                None => MetaRead::Invalid(TorrentError::MissingField("info")),
                Some(BencodeValue::Dictionary(info)) => read_info(td, info, urls),
                Some(_) => MetaRead::Invalid(TorrentError::InvalidFieldType("info is not a dictionary")),
            }
        },
        _ => MetaRead::Invalid(TorrentError::InvalidFieldType("Top-level is not a dictionary")),
    }
}

/// The SHA-1 digest of `data`, as `sha1_smol` computes it.
pub uninterp spec fn sha1_digest(data: Seq<u8>) -> Seq<u8>;

/// The SHA-1 digest of `data` (`sha1_smol::Sha1::from(data).digest().bytes()`),
/// named `sha1_digest`.
#[verifier::external_body]
fn get_sha1(data: &[u8]) -> (r: [u8; 20])
    ensures
        r@ == sha1_digest(data@),
{
    sha1_smol::Sha1::from(data).digest().bytes()
}

/// The `info` dictionary of a decoded metainfo file.
pub open spec fn info_of(top: Bencode) -> Bencode {
    match top {
        Bencode::Dict(td) => dict_get(td, key("info")).unwrap(),
        _ => top,
    }
}

/// The data decodes to a metainfo file whose file lengths add up past `u64::MAX`.
pub open spec fn lengths_overflow(data: Seq<u8>) -> bool {
    parse_value(data, 0) matches Ok((top, _)) && metainfo(top) is LengthOverflow
}

impl Torrent {
    /// A torrent just read from a metainfo file: what `m` describes, with info
    /// hash `h`, and no tracker state yet.
    pub open spec fn fresh(self, m: MetaView, h: Seq<u8>) -> bool {
        &&& self.name@ == m.name
        &&& texts(self.urls@) == m.urls
        &&& self.length == m.length
        &&& self.private == m.private
        &&& option_text(self.encoding) == m.encoding
        &&& self.info_hash@ == h
        &&& self.info_hash_urlencoded@ == percent_encoded(h)
        &&& self.uploaded == 0
        &&& self.seeders == 0
        &&& self.leechers == 0
        &&& self.next_upload_speed == 0
        &&& self.interval == 0
        &&& self.error_count == 0
        &&& self.min_interval is None
        &&& self.tracker_id is None
        &&& self.source_path is None
    }

    /// The torrent that a decoded metainfo file describes, or `None` when its
    /// file lengths add up past `u64::MAX`.
    fn build(top: &BencodeValue, info_hash: [u8; 20]) -> (r: Option<Result<Torrent, TorrentError>>)
        ensures
            match metainfo(top.model()) {
                Metainfo::Valid(m) => r matches Some(Ok(t)) && t.fresh(m, info_hash@),
                Metainfo::Invalid(f) => r matches Some(Err(e)) && e@ == f,
                Metainfo::LengthOverflow => r is None,
            },
    {
        match read_metainfo(top) {
            MetaRead::Valid { name, urls, length, private, encoding } => {
                let info_hash_urlencoded = percent_encoding(&info_hash);
                Some(
                    Ok(
                        Torrent {
                            name,
                            urls,
                            length,
                            private,
                            uploaded: 0,
                            last_announce: instant_now(),
                            info_hash,
                            info_hash_urlencoded,
                            seeders: 0,
                            leechers: 0,
                            next_upload_speed: 0,
                            interval: 0,
                            error_count: 0,
                            encoding,
                            min_interval: None,
                            tracker_id: None,
                            source_path: None,
                        },
                    ),
                )
            },
            MetaRead::Invalid(e) => Some(Err(e)),
            MetaRead::LengthOverflow => None,
        }
    }

    /// Builds the torrent that a decoded metainfo file describes, given the
    /// SHA-1 digest of its `info` dictionary.
    pub fn from_metainfo(top: &BencodeValue, info_hash: [u8; 20]) -> (r: Result<Torrent, TorrentError>)
        requires
            !(metainfo(top.model()) is LengthOverflow),
        ensures
            match metainfo(top.model()) {
                Metainfo::Valid(m) => r matches Ok(t) && t.fresh(m, info_hash@),
                Metainfo::Invalid(f) => r matches Err(e) && e@ == f,
                Metainfo::LengthOverflow => false,
            },
    {
        Torrent::build(top, info_hash).unwrap()
    }

    /// Parses a raw bencoded .torrent file into a Torrent, or `None` when its
    /// file lengths add up past `u64::MAX`.
    pub fn checked_from_bencode_bytes(bencode_data: &[u8]) -> (r: Option<Result<Torrent, TorrentError>>)
        ensures
            r is None <==> lengths_overflow(bencode_data@),
            match parse_value(bencode_data@, 0) {
                Err(x) => r matches Some(Err(e)) && e@ == TorrentFailure::Bencode(x),
                Ok((top, _)) => match metainfo(top) {
                    Metainfo::Valid(m) => r matches Some(Ok(t)) && t.fresh(
                        m,
                        sha1_digest(encode(info_of(top))),
                    ),
                    Metainfo::Invalid(f) => r matches Some(Err(e)) && e@ == f,
                    Metainfo::LengthOverflow => r is None,
                },
            },
    {
        let mut decoder = BencodeDecoder::new(bencode_data);
        let top = match decoder.decode() {
            Ok(v) => v,
            Err(e) => {
                return Some(Err(TorrentError::from(e)));
            },
        };
        let info_hash: [u8; 20] = match &top {
            BencodeValue::Dictionary(td) => match dict_lookup(td, "info".as_bytes()) {
                Some(info) => {
                    let mut encoded: Vec<u8> = Vec::new();
                    encode_bencode_value(info, &mut encoded);
                    get_sha1(encoded.as_slice())
                },
                None => [0u8; 20],
            },
            _ => [0u8; 20],
        };
        Torrent::build(&top, info_hash)
    }

    /// Parses a raw bencoded .torrent file byte slice into a Torrent struct.
    ///
    /// This function decodes the Bencode structure, extracts relevant fields,
    /// calculates the info hash, and initializes default values for other fields.
    pub fn from_bencode_bytes(bencode_data: &[u8]) -> (r: Result<Torrent, TorrentError>)
        requires
            !lengths_overflow(bencode_data@),
        ensures
            match parse_value(bencode_data@, 0) {
                Err(x) => r matches Err(e) && e@ == TorrentFailure::Bencode(x),
                Ok((top, _)) => match metainfo(top) {
                    Metainfo::Valid(m) => r matches Ok(t) && t.fresh(
                        m,
                        sha1_digest(encode(info_of(top))),
                    ),
                    Metainfo::Invalid(f) => r matches Err(e) && e@ == f,
                    Metainfo::LengthOverflow => false,
                },
            },
    {
        Torrent::checked_from_bencode_bytes(bencode_data).unwrap()
    }
}

/// The text of an I/O error (`Display` of `std::io::Error`); it comes from the
/// operating system, so nothing is stated of it.
#[verifier::external_body]
fn io_error_text(e: &std::io::Error) -> String {
    format!("{}", e)
}

/// How a decoder error prints for debugging.
pub open spec fn decoder_error_text(e: BencodeDecoderError) -> Seq<char> {
    match e {
        BencodeDecoderError::UnexpectedEof => "UnexpectedEof"@,
        BencodeDecoderError::InvalidInteger => "InvalidInteger"@,
        BencodeDecoderError::InvalidStringLength => "InvalidStringLength"@,
        BencodeDecoderError::NonStringKey => "NonStringKey"@,
        BencodeDecoderError::UnexpectedByte(b) => "UnexpectedByte("@ + decimal(b as nat) + ")"@,
    }
}

/// The message of a failure other than an I/O error.
pub open spec fn failure_text(f: TorrentFailure) -> Seq<char> {
    match f {
        TorrentFailure::Bencode(e) => "Bencode decoding error: "@ + decoder_error_text(e),
        TorrentFailure::Io => "IO error: "@,
        TorrentFailure::MissingField(x) => "Missing required field: "@ + x,
        TorrentFailure::InvalidFieldType(x) => "Invalid type for field: "@ + x,
        TorrentFailure::Parse(x) => "Parsing error: "@ + x,
        TorrentFailure::Utf8Conversion(x) => "UTF-8 conversion error for field: "@ + x,
    }
}

impl TorrentError {
    /// The message that describes the error to a user.
    pub fn message(&self) -> (r: String)
        ensures
            !(self is IoError) ==> r@ == failure_text(self@),
            self is IoError ==> has_prefix(r@, "IO error: "@),
    {
        let mut r = String::new();
        match self {
            TorrentError::BencodeError(e) => {
                r.append("Bencode decoding error: ");
                match e {
                    BencodeDecoderError::UnexpectedEof => r.append("UnexpectedEof"),
                    BencodeDecoderError::InvalidInteger => r.append("InvalidInteger"),
                    BencodeDecoderError::InvalidStringLength => r.append("InvalidStringLength"),
                    BencodeDecoderError::NonStringKey => r.append("NonStringKey"),
                    BencodeDecoderError::UnexpectedByte(b) => {
                        r.append("UnexpectedByte(");
                        push_decimal(&mut r, *b as u64);
                        r.append(")");
                    },
                }
            },
            TorrentError::IoError(e) => {
                r.append("IO error: ");
                let ghost head = r@;
                let text = io_error_text(e);
                r.append(text.as_str());
                assert(r@.take(head.len() as int) =~= head);
            },
            TorrentError::MissingField(f) => {
                r.append("Missing required field: ");
                r.append(f);
            },
            TorrentError::InvalidFieldType(f) => {
                r.append("Invalid type for field: ");
                r.append(f);
            },
            TorrentError::ParseError(m) => {
                r.append("Parsing error: ");
                r.append(m.as_str());
            },
            TorrentError::Utf8ConversionError(f) => {
                r.append("UTF-8 conversion error for field: ");
                r.append(f);
            },
        }
        proof {
            assert(Seq::<char>::empty() + "IO error: "@ =~= "IO error: "@);
        }
        r
    }
}

/// No URL appears twice and every URL is supported.
pub open spec fn distinct_supported(u: Seq<Seq<char>>) -> bool {
    &&& forall|i: int, j: int| 0 <= i < j < u.len() ==> u[i] != u[j]
    &&& forall|i: int| 0 <= i < u.len() ==> supported_url(#[trigger] u[i])
}

proof fn lemma_url_step(urls: Seq<Seq<char>>, bytes: Seq<u8>, what: Seq<char>)
    requires
        distinct_supported(urls),
    ensures
        url_step(urls, bytes, what) matches Ok(u) ==> distinct_supported(u),
{
    if valid_utf8(bytes) {
        let u = decode_utf8(bytes);
        if !urls.contains(u) && supported_url(u) {
            let n = urls.push(u);
            assert forall|i: int, j: int| 0 <= i < j < n.len() implies n[i] != n[j] by {
                if j == urls.len() {
                    assert(n[i] == urls[i]);
                }
            }
        }
    }
}

proof fn lemma_tier_urls(urls: Seq<Seq<char>>, tier: Seq<Bencode>)
    requires
        distinct_supported(urls),
    ensures
        tier_urls(urls, tier) matches Ok(u) ==> distinct_supported(u),
    decreases tier.len(),
{
    if tier.len() > 0 {
        lemma_tier_urls(urls, tier.drop_last());
        if let Ok(u) = tier_urls(urls, tier.drop_last()) {
            if let Bencode::Bytes(b) = tier.last() {
                lemma_url_step(u, b, "announce-list URL"@);
            }
        }
    }
}

proof fn lemma_tiers_urls(urls: Seq<Seq<char>>, tiers: Seq<Bencode>)
    requires
        distinct_supported(urls),
    ensures
        tiers_urls(urls, tiers) matches Ok(u) ==> distinct_supported(u),
    decreases tiers.len(),
{
    if tiers.len() > 0 {
        lemma_tiers_urls(urls, tiers.drop_last());
        if let Ok(u) = tiers_urls(urls, tiers.drop_last()) {
            if let Bencode::List(t) = tiers.last() {
                lemma_tier_urls(u, t);
            }
        }
    }
}

/// A torrent read from a metainfo file has at least one announce URL; its
/// URLs are supported and none appears twice.
pub proof fn lemma_metainfo_urls(top: Bencode)
    ensures
        metainfo(top) matches Metainfo::Valid(m) ==> m.urls.len() > 0 && distinct_supported(
            m.urls,
        ),
{
    if let Bencode::Dict(td) = top {
        let empty = Seq::<Seq<char>>::empty();
        assert(distinct_supported(empty));
        if let Some(Bencode::List(tiers)) = dict_get(td, key("announce-list")) {
            lemma_tiers_urls(empty, tiers);
        }
        let listed = match dict_get(td, key("announce-list")) {
            Some(Bencode::List(tiers)) => tiers_urls(empty, tiers),
            _ => Ok(empty),
        };
        if let Ok(u) = listed {
            if let Some(Bencode::Bytes(b)) = dict_get(td, key("announce")) {
                lemma_url_step(u, b, "announce URL"@);
            }
        }
    }
}

/// The info hash of a torrent read from a file is the SHA-1 digest of bytes
/// that decode to exactly the `info` dictionary read from that file.
pub proof fn lemma_info_hash_input(data: Seq<u8>)
    ensures
        parse_value(data, 0) matches Ok((top, _)) ==> (metainfo(top) is Valid ==> parse_value(
            encode(info_of(top)),
            0,
        ) == Ok::<_, BencodeDecoderError>((info_of(top), encode(info_of(top)).len() as int))),
{
    lemma_parse_well_formed(data, 0);
    if let Ok((top, _)) = parse_value(data, 0) {
        if let Bencode::Dict(td) = top {
            lemma_dict_get_member(td, key("info"));
            if let Some(x) = dict_get(td, key("info")) {
                let j = choose|j: int| 0 <= j < td.len() && td[j].1 == x;
                assert(well_formed(td[j].1));
                lemma_decode_encode(x);
            }
        }
    }
}

/// A single-file torrent (an `info` dictionary with an integer `length` of at
/// least 0 and no `files` list) never has lengths that overflow, and when it is
/// read, its length is exactly that `length`, however large.
pub proof fn lemma_single_file_length(top: Bencode, l: int)
    requires
        top matches Bencode::Dict(td) && dict_get(td, key("info")) matches Some(
            Bencode::Dict(info),
        ) && dict_get(info, key("length")) == Some(Bencode::Int(l)) && !(dict_get(
            info,
            key("files"),
        ) matches Some(Bencode::List(_))),
        l >= 0,
    ensures
        !(metainfo(top) is LengthOverflow),
        metainfo(top) matches Metainfo::Valid(m) ==> m.length == l,
{
}

/// A torrent can upload when it has at least one seeder and one leecher, or at
/// least two leechers, and in no other case.
pub proof fn lemma_can_upload_peers(t: Torrent)
    ensures
        t.leechers == 0 ==> !t.spec_can_upload(),
        t.leechers == 1 ==> (t.spec_can_upload() <==> t.seeders >= 1),
        t.leechers >= 2 ==> t.spec_can_upload(),
{
}

/// It is time to announce again exactly when the seconds elapsed since the
/// last announce are at least `interval` and at least `min_interval` when there
/// is one; in particular never while fewer than `interval` seconds have passed.
pub proof fn lemma_announce_due_waits(t: Torrent, elapsed: u64)
    ensures
        (elapsed >= t.spec_effective_interval()) <==> (elapsed >= t.interval && (
        t.min_interval matches Some(m) ==> elapsed >= m)),
        elapsed < t.interval ==> !(elapsed >= t.spec_effective_interval()),
{
}

/// The JSON line of a torrent says `"private": true` when the torrent is
/// private and `"private": false` when it is not.
pub proof fn lemma_json_private(t: Torrent)
    ensures
        t.private ==> exists|i: int|
            0 <= i && i + 17 <= t.json().len() && #[trigger] t.json().subrange(i, i + 17)
                == ", \"private\": true"@,
        !t.private ==> exists|i: int|
            0 <= i && i + 18 <= t.json().len() && #[trigger] t.json().subrange(i, i + 18)
                == ", \"private\": false"@,
{
    reveal_strlit(", \"private\": true");
    reveal_strlit(", \"private\": false");
    reveal_strlit(", \"private\": ");
    reveal_strlit("true");
    reveal_strlit("false");
    let pre = "\t{\"name\": \""@ + escape_quotes(t.name@) + "\", \"length\": "@ + decimal(
        t.length as nat,
    );
    let tag = ", \"private\": "@ + bool_text(t.private);
    let rest = ", \"uploaded\": "@ + decimal(t.uploaded as nat) + ", \"seeders\": "@ + decimal(
        t.seeders as nat,
    ) + ", \"leechers\": "@ + decimal(t.leechers as nat) + ", \"next_upload_speed\": "@
        + decimal(t.next_upload_speed as nat) + ", \"info_hash\": \""@ + hex_lower(t.info_hash@)
        + "\", \"urls\": ["@ + json_urls(texts(t.urls@)) + "]}\n"@;
    let whole = pre + tag + rest;
    assert(t.json() =~= whole);
    let k = pre.len() as int;
    assert(whole.subrange(k, k + tag.len()) =~= tag);
    if t.private {
        assert(tag =~= ", \"private\": true"@);
        assert(tag.len() == 17);
        assert(t.json().subrange(k, k + 17) == ", \"private\": true"@);
    } else {
        assert(tag =~= ", \"private\": false"@);
        assert(tag.len() == 18);
        assert(t.json().subrange(k, k + 18) == ", \"private\": false"@);
    }
}


} // verus!
