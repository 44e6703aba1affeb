//! A database of glyph outlines: which character an outline draws.
//!
//! The database is split into shards by the first two bytes of the key of a
//! glyph. A shard is a sequence of MessagePack arrays of two elements: a key as
//! binary data, and a code point.

use std::collections::HashMap;
use vstd::prelude::*;
use vstd::string::*;
use crate::code_points;
use crate::numbers;

verus! {

broadcast use vstd::std_specs::hash::group_hash_axioms;

/// The length of a key: half of the length of the hash of an outline.
pub const KEY_LEN: usize = 16;

/// A segment of a glyph outline. The coordinates are the bits of single precision
/// numbers.
#[derive(Clone, Copy, Debug, PartialEq, Eq, Structural)]
pub struct Segment {
    pub kind: i32,
    pub x: u32,
    pub y: u32,
}

// ---------------------------------------------------------------------------
// The hash of an outline
// ---------------------------------------------------------------------------

/// The BLAKE3 hash of a sequence of bytes, as `blake3::hash` computes it.
pub uninterp spec fn blake3_of(bytes: Seq<u8>) -> Seq<u8>;

/// `blake3::hash`: the 32 bytes of the BLAKE3 hash.
#[verifier::external_body]
fn blake3_hash(bytes: &Vec<u8>) -> (r: Vec<u8>)
    ensures
        r@ == blake3_of(bytes@),
        r@.len() == 32,
{
    blake3::hash(bytes).as_bytes().to_vec()
}

/// The four bytes of a number, the lowest first.
pub open spec fn low_first(v: u32) -> Seq<u8> {
    seq![
        (v % 256) as u8,
        ((v / 256) % 256) as u8,
        ((v / 65_536) % 256) as u8,
        (v / 16_777_216) as u8,
    ]
}

/// The bytes of the first `n` segments: of each, the kind and the coordinates.
pub open spec fn packed_upto(segments: Seq<Segment>, n: int) -> Seq<u8>
    decreases n,
{
    if n <= 0 {
        seq![]
    } else {
        let s = segments[n - 1];
        packed_upto(segments, n - 1) + low_first(s.kind as u32) + low_first(s.x) + low_first(s.y)
    }
}

/// The key of an outline: the first half of its hash.
pub open spec fn key_of(segments: Seq<Segment>) -> Seq<u8> {
    blake3_of(packed_upto(segments, segments.len() as int)).take(KEY_LEN as int)
}

fn push_low_first(out: &mut Vec<u8>, v: u32)
    ensures
        final(out)@ == old(out)@ + low_first(v),
{
    out.push((v % 256) as u8);
    out.push(((v / 256) % 256) as u8);
    out.push(((v / 65_536) % 256) as u8);
    out.push((v / 16_777_216) as u8);
    proof {
        assert(out@ =~= old(out)@ + low_first(v));
    }
}

fn take_bytes(bytes: &Vec<u8>, from: usize, to: usize) -> (r: Vec<u8>)
    requires
        from <= to <= bytes@.len(),
    ensures
        r@ == bytes@.subrange(from as int, to as int),
{
    let mut out: Vec<u8> = Vec::new();
    let mut i: usize = from;
    while i < to
        invariant
            from <= i <= to <= bytes@.len(),
            out@ == bytes@.subrange(from as int, i as int),
        decreases to - i,
    {
        proof {
            assert(bytes@.subrange(from as int, i + 1) =~= bytes@.subrange(
                from as int,
                i as int,
            ).push(bytes@[i as int]));
        }
        out.push(bytes[i]);
        i = i + 1;
    }
    out
}

/// A key as a number.
pub open spec fn key_number(key: Seq<u8>, n: int) -> nat
    decreases n,
{
    if n <= 0 {
        0
    } else {
        256 * key_number(key, n - 1) + key[n - 1] as nat
    }
}

/// Different keys are different numbers.
pub proof fn law_key_numbers_differ(a: Seq<u8>, b: Seq<u8>, n: int)
    requires
        0 <= n <= a.len(),
        n <= b.len(),
        key_number(a, n) == key_number(b, n),
    ensures
        a.take(n) == b.take(n),
    decreases n,
{
    if n > 0 {
        law_key_numbers_differ(a, b, n - 1);
        assert(a.take(n) =~= a.take(n - 1).push(a[n - 1]));
        assert(b.take(n) =~= b.take(n - 1).push(b[n - 1]));
    } else {
        assert(a.take(0) =~= b.take(0));
    }
}

proof fn lemma_key_number_fits(key: Seq<u8>, n: int)
    requires
        0 <= n <= 16,
        n <= key.len(),
    ensures
        key_number(key, n) < vstd::arithmetic::power::pow(256, n as nat),
    decreases n,
{
    vstd::arithmetic::power::lemma_pow0(256);
    if n > 0 {
        lemma_key_number_fits(key, n - 1);
        vstd::arithmetic::power::lemma_pow_adds(256, (n - 1) as nat, 1);
        vstd::arithmetic::power::lemma_pow1(256);
    }
}

fn number_of_key(key: &Vec<u8>) -> (r: u128)
    requires
        key@.len() == KEY_LEN,
    ensures
        r == key_number(key@, KEY_LEN as int),
{
    let mut v: u128 = 0;
    let mut i: usize = 0;
    while i < KEY_LEN
        invariant
            i <= KEY_LEN == key@.len(),
            v == key_number(key@, i as int),
        decreases KEY_LEN - i,
    {
        proof {
            lemma_key_number_fits(key@, i + 1);
            vstd::arithmetic::power::lemma_pow_increases(256, (i + 1) as nat, 16);
            assert(vstd::arithmetic::power::pow(256, 16)
                == 0x1_0000_0000_0000_0000_0000_0000_0000_0000) by {
                reveal(vstd::arithmetic::power::pow);
                reveal_with_fuel(vstd::arithmetic::power::pow, 17);
            }
        }
        v = 256 * v + key[i] as u128;
        i = i + 1;
    }
    v
}

// ---------------------------------------------------------------------------
// Shards
// ---------------------------------------------------------------------------

/// The number in the first `n` bytes, the highest first.
pub open spec fn high_first(s: Seq<u8>, n: int) -> nat
    decreases n,
{
    if n <= 0 {
        0
    } else {
        256 * high_first(s, n - 1) + s[n - 1] as nat
    }
}

/// A number of `n` bytes behind a marker, and how many bytes are left behind it.
pub open spec fn number_behind(s: Seq<u8>, n: int) -> Option<(nat, nat)> {
    if s.len() < 1 + n {
        None
    } else {
        Some((high_first(s.skip(1), n), (s.len() - 1 - n) as nat))
    }
}

/// The length of a MessagePack array that begins here, and how many bytes are left
/// behind its header.
pub open spec fn array_header(s: Seq<u8>) -> Option<(nat, nat)> {
    if s.len() == 0 {
        None
    } else if 0x90 <= s[0] <= 0x9F {
        Some(((s[0] - 0x90) as nat, (s.len() - 1) as nat))
    } else if s[0] == 0xDC {
        number_behind(s, 2)
    } else if s[0] == 0xDD {
        number_behind(s, 4)
    } else {
        None
    }
}

/// The length of MessagePack binary data that begins here, and how many bytes are
/// left behind its header.
pub open spec fn binary_header(s: Seq<u8>) -> Option<(nat, nat)> {
    if s.len() == 0 {
        None
    } else if s[0] == 0xC4 {
        number_behind(s, 1)
    } else if s[0] == 0xC5 {
        number_behind(s, 2)
    } else if s[0] == 0xC6 {
        number_behind(s, 4)
    } else {
        None
    }
}

/// A number of at most `most`, if it is one.
pub open spec fn at_most(v: Option<(nat, nat)>, most: nat) -> Option<(nat, nat)> {
    match v {
        Some(x) => if x.0 <= most {
            Some(x)
        } else {
            None
        },
        None => None,
    }
}

/// A MessagePack integer that begins here and fits in 32 bits without a sign, and
/// how many bytes are left behind it. Of the signed formats, those are the numbers
/// whose sign bit is not set.
pub open spec fn small_integer(s: Seq<u8>) -> Option<(nat, nat)> {
    if s.len() == 0 {
        None
    } else if s[0] <= 0x7F {
        Some((s[0] as nat, (s.len() - 1) as nat))
    } else if s[0] == 0xCC {
        number_behind(s, 1)
    } else if s[0] == 0xCD {
        number_behind(s, 2)
    } else if s[0] == 0xCE {
        number_behind(s, 4)
    } else if s[0] == 0xCF {
        at_most(number_behind(s, 8), 0xFFFF_FFFF)
    } else if s[0] == 0xD0 {
        at_most(number_behind(s, 1), 0x7F)
    } else if s[0] == 0xD1 {
        at_most(number_behind(s, 2), 0x7FFF)
    } else if s[0] == 0xD2 {
        at_most(number_behind(s, 4), 0x7FFF_FFFF)
    } else if s[0] == 0xD3 {
        at_most(number_behind(s, 8), 0xFFFF_FFFF)
    } else {
        None
    }
}

/// A number that was read and how many bytes are left, as mathematical integers.
pub open spec fn as_read(r: Option<(u32, usize)>) -> Option<(nat, nat)> {
    match r {
        Some(x) => Some((x.0 as nat, x.1 as nat)),
        None => None,
    }
}

/// `rmp::decode::read_array_len` on the bytes from `at` on: the length of an array,
/// from a header in one of its three formats, and how many bytes are left behind
/// it. `None` for another marker, and where bytes are missing.
#[verifier::external_body]
fn read_array_len(bytes: &Vec<u8>, at: usize) -> (r: Option<(u32, usize)>)
    requires
        at <= bytes@.len(),
    ensures
        as_read(r) == array_header(bytes@.skip(at as int)),
{
    let mut rd: &[u8] = &bytes[at..];
    match rmp::decode::read_array_len(&mut rd) {
        Ok(n) => Some((n, rd.len())),
        Err(_) => None,
    }
}

/// `rmp::decode::read_bin_len` on the bytes from `at` on: the length of binary data,
/// from a header in one of its three formats, and how many bytes are left behind
/// it. `None` for another marker, and where bytes are missing.
#[verifier::external_body]
fn read_bin_len(bytes: &Vec<u8>, at: usize) -> (r: Option<(u32, usize)>)
    requires
        at <= bytes@.len(),
    ensures
        as_read(r) == binary_header(bytes@.skip(at as int)),
{
    let mut rd: &[u8] = &bytes[at..];
    match rmp::decode::read_bin_len(&mut rd) {
        Ok(n) => Some((n, rd.len())),
        Err(_) => None,
    }
}

/// `rmp::decode::read_int` for `u32` on the bytes from `at` on: an integer in any of
/// its formats, if it fits, and how many bytes are left behind it. `None` for
/// another marker, for numbers out of range, and where bytes are missing.
#[verifier::external_body]
fn read_int(bytes: &Vec<u8>, at: usize) -> (r: Option<(u32, usize)>)
    requires
        at <= bytes@.len(),
    ensures
        as_read(r) == small_integer(bytes@.skip(at as int)),
{
    let mut rd: &[u8] = &bytes[at..];
    match rmp::decode::read_int::<u32, _>(&mut rd) {
        Ok(n) => Some((n, rd.len())),
        Err(_) => None,
    }
}

/// A record of a shard: a key, a code point, and where the next record begins.
#[verifier::ext_equal]
pub struct RecordView {
    pub key: Seq<u8>,
    pub unicode: nat,
    pub next: int,
}

/// The record that begins at `at`, if there is a whole one: an array of two, with
/// a key of 16 bytes or more, of which the first 16 count.
pub open spec fn record_at(s: Seq<u8>, at: int) -> Option<RecordView> {
    match array_header(s.skip(at)) {
        Some(a) => {
            let bin_at = s.len() - a.1;
            match binary_header(s.skip(bin_at)) {
                Some(b) => {
                    let key_at = s.len() - b.1;
                    let int_at = key_at + b.0;
                    if a.0 != 2 || b.0 < KEY_LEN || int_at > s.len() {
                        None
                    } else {
                        match small_integer(s.skip(int_at)) {
                            Some(u) => Some(
                                RecordView {
                                    key: s.subrange(key_at, key_at + KEY_LEN),
                                    unicode: u.0,
                                    next: s.len() - u.1,
                                },
                            ),
                            None => None,
                        }
                    }
                },
                None => None,
            }
        },
        None => None,
    }
}

/// A record is not empty, and it ends within the shard.
pub proof fn lemma_record_advances(s: Seq<u8>, at: int)
    requires
        0 <= at <= s.len(),
    ensures
        record_at(s, at) is Some ==> at < record_at(s, at)->0.next <= s.len(),
{
}

/// The entries of a shard from `at` on, added to `found`: the code points by the
/// numbers of their keys. Of two records with one key the later counts. Reading
/// ends with the first thing that is no record.
pub open spec fn entries_from(s: Seq<u8>, at: int, found: Map<u128, u32>) -> Map<u128, u32>
    decreases s.len() - at,
{
    if 0 <= at <= s.len() {
        proof {
            lemma_record_advances(s, at);
        }
        match record_at(s, at) {
            Some(r) => entries_from(
                s,
                r.next,
                found.insert(key_number(r.key, KEY_LEN as int) as u128, r.unicode as u32),
            ),
            None => found,
        }
    } else {
        found
    }
}

/// The entries of a shard.
pub open spec fn shard_entries(s: Seq<u8>) -> Map<u128, u32> {
    entries_from(s, 0, Map::empty())
}

fn read_record(bytes: &Vec<u8>, at: usize) -> (r: Option<(Vec<u8>, u32, usize)>)
    requires
        at <= bytes@.len(),
    ensures
        match r {
            Some(x) => record_at(bytes@, at as int) == Some(
                RecordView { key: x.0@, unicode: x.1 as nat, next: x.2 as int },
            ) && x.0@.len() == KEY_LEN && at < x.2 <= bytes@.len(),
            None => record_at(bytes@, at as int) is None,
        },
{
    let total: usize = bytes.len();
    let a: (u32, usize) = match read_array_len(bytes, at) {
        Some(a) => a,
        None => {
            return None;
        },
    };
    let bin_at: usize = total - a.1;
    let b: (u32, usize) = match read_bin_len(bytes, bin_at) {
        Some(b) => b,
        None => {
            return None;
        },
    };
    let key_at: usize = total - b.1;
    if a.0 != 2 || (b.0 as usize) < KEY_LEN || b.0 as usize > b.1 {
        return None;
    }
    let int_at: usize = key_at + b.0 as usize;
    match read_int(bytes, int_at) {
        Some(u) => Some((take_bytes(bytes, key_at, key_at + KEY_LEN), u.0, total - u.1)),
        None => None,
    }
}

/// The entries of a shard: the code points by the numbers of their keys.
pub fn load_shard(bytes: &Vec<u8>) -> (r: HashMap<u128, u32>)
    ensures
        r@ == shard_entries(bytes@),
{
    let mut found: HashMap<u128, u32> = HashMap::new();
    let mut at: usize = 0;
    let mut more: bool = true;
    proof {
        assert(found@ =~= Map::empty());
    }
    while more
        invariant
            at <= bytes@.len(),
            more ==> shard_entries(bytes@) == entries_from(bytes@, at as int, found@),
            !more ==> shard_entries(bytes@) == found@,
        decreases bytes.len() - at, (if more {
            1int
        } else {
            0int
        }),
    {
        match read_record(bytes, at) {
            Some(x) => {
                let key: u128 = number_of_key(&x.0);
                found.insert(key, x.1);
                at = x.2;
            },
            None => {
                more = false;
            },
        }
    }
    found
}

// ---------------------------------------------------------------------------
// The resolver
// ---------------------------------------------------------------------------

/// The shard that holds a key.
pub open spec fn prefix_of(key: Seq<u8>) -> int {
    256 * key[0] + key[1]
}

/// The name of the file of a shard.
pub open spec fn shard_name(prefix: u16) -> Seq<char> {
    numbers::hex_byte((prefix / 256) as u8) + numbers::hex_byte((prefix % 256) as u8)
        + ".msgpack"@
}

/// Resolves glyph outlines with a database. Shards are loaded when they are needed,
/// and kept; a shard that could not be read is kept as missing.
pub struct FontDbResolver {
    /// Where the shards are.
    pub dir: String,
    /// The shards that were loaded, or found missing.
    pub shards: HashMap<u16, Option<HashMap<u128, u32>>>,
}

/// The text that an outline with the given key draws, as far as the loaded shards
/// tell.
pub open spec fn text_for(
    shards: Map<u16, Option<HashMap<u128, u32>>>,
    key: Seq<u8>,
) -> Option<Seq<char>> {
    let prefix = prefix_of(key) as u16;
    let number = key_number(key, KEY_LEN as int) as u128;
    if !shards.dom().contains(prefix) {
        None
    } else {
        match shards[prefix] {
            Some(entries) => if entries@.dom().contains(number) {
                code_points::glyph_text(entries@[number])
            } else {
                None
            },
            None => None,
        }
    }
}

fn key_prefix(key: &Vec<u8>) -> (r: u16)
    requires
        key@.len() == KEY_LEN,
    ensures
        r == prefix_of(key@),
{
    256 * (key[0] as u16) + key[1] as u16
}

impl FontDbResolver {
    /// A resolver for the database in `dir`. Nothing is loaded yet.
    pub fn new(dir: String) -> (r: FontDbResolver)
        ensures
            r.dir == dir,
            r.shards@ == Map::<u16, Option<HashMap<u128, u32>>>::empty(),
    {
        FontDbResolver { dir, shards: HashMap::new() }
    }

    /// The key of an outline: the first 16 bytes of the hash of its segments.
    pub fn glyph_key(segments: &Vec<Segment>) -> (r: Vec<u8>)
        ensures
            r@ == key_of(segments@),
            r@.len() == KEY_LEN,
    {
        let mut bytes: Vec<u8> = Vec::new();
        let mut i: usize = 0;
        while i < segments.len()
            invariant
                i <= segments@.len(),
                bytes@ == packed_upto(segments@, i as int),
            decreases segments.len() - i,
        {
            let s: Segment = segments[i];
            push_low_first(&mut bytes, s.kind as u32);
            push_low_first(&mut bytes, s.x);
            push_low_first(&mut bytes, s.y);
            i = i + 1;
        }
        let full: Vec<u8> = blake3_hash(&bytes);
        proof {
            assert(full@.subrange(0, KEY_LEN as int) =~= full@.take(KEY_LEN as int));
        }
        take_bytes(&full, 0, KEY_LEN)
    }

    /// The name of the file of a shard.
    pub fn shard_file(prefix: u16) -> (r: String)
        ensures
            r@ == shard_name(prefix),
    {
        let mut out: String = String::new();
        numbers::push_hex_byte(&mut out, (prefix / 256) as u8);
        numbers::push_hex_byte(&mut out, (prefix % 256) as u8);
        out.append(".msgpack");
        proof {
            assert(out@ =~= shard_name(prefix));
        }
        out
    }

    /// The shard that has to be loaded before an outline can be resolved, if it was
    /// not loaded yet.
    pub fn missing_shard(&self, segments: &Vec<Segment>) -> (r: Option<u16>)
        ensures
            ({
                let prefix = prefix_of(key_of(segments@)) as u16;
                r == if self.shards@.dom().contains(prefix) {
                    None
                } else {
                    Some(prefix)
                }
            }),
    {
        let key: Vec<u8> = Self::glyph_key(segments);
        let prefix: u16 = key_prefix(&key);
        if self.shards.contains_key(&prefix) {
            None
        } else {
            Some(prefix)
        }
    }

    /// Keep what was read of a shard: its bytes, or nothing where it could not be
    /// read. A shard that is kept already stays as it is.
    pub fn provide(&mut self, prefix: u16, data: Option<Vec<u8>>)
        ensures
            final(self).dir == old(self).dir,
            old(self).shards@.dom().contains(prefix) ==> final(self).shards@ == old(self).shards@,
            !old(self).shards@.dom().contains(prefix) ==> {
                &&& final(self).shards@.dom() == old(self).shards@.dom().insert(prefix)
                &&& forall|p: u16|
                    old(self).shards@.dom().contains(p) ==> #[trigger] final(self).shards@[p]
                        == old(self).shards@[p]
                &&& match data {
                    Some(bytes) => final(self).shards@[prefix] is Some
                        && final(self).shards@[prefix]->0@ == shard_entries(bytes@),
                    None => final(self).shards@[prefix] is None,
                }
            },
    {
        if self.shards.contains_key(&prefix) {
            return;
        }
        let loaded: Option<HashMap<u128, u32>> = match data {
            Some(bytes) => Some(load_shard(&bytes)),
            None => None,
        };
        self.shards.insert(prefix, loaded);
    }

    /// The text that an outline draws, as far as the loaded shards tell.
    pub fn resolve(&self, segments: &Vec<Segment>) -> (r: Option<String>)
        ensures
            match r {
                Some(s) => text_for(self.shards@, key_of(segments@)) == Some(s@),
                None => text_for(self.shards@, key_of(segments@)) is None,
            },
    {
        let key: Vec<u8> = Self::glyph_key(segments);
        self.resolve_key(&key)
    }

    /// The text that an outline with the given key draws, as far as the loaded
    /// shards tell.
    pub fn resolve_key(&self, key: &Vec<u8>) -> (r: Option<String>)
        requires
            key@.len() == KEY_LEN,
        ensures
            match r {
                Some(s) => text_for(self.shards@, key@) == Some(s@),
                None => text_for(self.shards@, key@) is None,
            },
    {
        let prefix: u16 = key_prefix(key);
        let number: u128 = number_of_key(key);
        match self.shards.get(&prefix) {
            Some(slot) => match slot {
                Some(entries) => match entries.get(&number) {
                    Some(unicode) => code_points::text_of_glyph(*unicode),
                    None => None,
                },
                None => None,
            },
            None => None,
        }
    }
}

// ---------------------------------------------------------------------------
// What is written is read
// ---------------------------------------------------------------------------

/// A code point as a MessagePack integer, in the shortest format without a sign.
pub open spec fn integer_bytes(v: u32) -> Seq<u8> {
    if v <= 0x7F {
        seq![v as u8]
    } else if v <= 0xFF {
        seq![0xCC, v as u8]
    } else if v <= 0xFFFF {
        seq![0xCD, (v / 256) as u8, (v % 256) as u8]
    } else {
        seq![
            0xCE,
            (v / 16_777_216) as u8,
            ((v / 65_536) % 256) as u8,
            ((v / 256) % 256) as u8,
            (v % 256) as u8,
        ]
    }
}

/// A record as it is written: an array of two, a key as binary data, and a code point.
pub open spec fn record_bytes(key: Seq<u8>, unicode: u32) -> Seq<u8> {
    seq![0x92u8, 0xC4u8, 16u8] + key + integer_bytes(unicode)
}

/// The first `n` records, one behind the other.
pub open spec fn shard_bytes(records: Seq<(Seq<u8>, u32)>, n: int) -> Seq<u8>
    decreases n,
{
    if n <= 0 {
        seq![]
    } else {
        shard_bytes(records, n - 1) + record_bytes(records[n - 1].0, records[n - 1].1)
    }
}

/// The code points of the first `n` records by the numbers of their keys. Of two records
/// with one key the later counts.
pub open spec fn record_entries(records: Seq<(Seq<u8>, u32)>, n: int) -> Map<u128, u32>
    decreases n,
{
    if n <= 0 {
        Map::empty()
    } else {
        record_entries(records, n - 1).insert(
            key_number(records[n - 1].0, KEY_LEN as int) as u128,
            records[n - 1].1,
        )
    }
}

proof fn lemma_record_is_read(s: Seq<u8>, at: int, key: Seq<u8>, unicode: u32)
    requires
        key.len() == KEY_LEN,
        0 <= at,
        at + record_bytes(key, unicode).len() <= s.len(),
        s.subrange(at, at + record_bytes(key, unicode).len()) == record_bytes(key, unicode),
    ensures
        record_at(s, at) == Some(
            RecordView {
                key,
                unicode: unicode as nat,
                next: at + record_bytes(key, unicode).len(),
            },
        ),
{
    let w = record_bytes(key, unicode);
    let t = integer_bytes(unicode);
    assert forall|i: int| 0 <= i < w.len() implies #[trigger] s[at + i] == w[i] by {
        assert(s.subrange(at, at + w.len())[i] == w[i]);
    }
    reveal_with_fuel(high_first, 5);
    assert(s[at + 0] == 0x92);
    assert(s[at + 1] == 0xC4);
    assert(s[at + 2] == 16);
    assert(s.skip(at)[0] == 0x92);
    assert(s.skip(at + 1)[0] == 0xC4);
    assert(s.skip(at + 1).skip(1)[0] == 16);
    assert(binary_header(s.skip(at + 1)) == Some((16nat, (s.len() - at - 3) as nat)));
    assert forall|i: int| 0 <= i < t.len() implies #[trigger] s.skip(at + 19)[i] == t[i] by {
        assert(s[at + (19 + i)] == w[19 + i]);
    }
    assert(s.subrange(at + 3, at + 3 + KEY_LEN) =~= key) by {
        assert forall|i: int| 0 <= i < KEY_LEN implies s[at + 3 + i] == key[i] by {
            assert(s[at + (3 + i)] == w[3 + i]);
        }
    }
    let u = s.skip(at + 19);
    assert(u[0] == t[0]);
    if unicode > 0x7F {
        assert(u.skip(1)[0] == u[1] && u[1] == t[1]);
    }
    if unicode > 0xFF {
        assert(u.skip(1)[1] == u[2] && u[2] == t[2]);
    }
    if unicode > 0xFFFF {
        assert(u.skip(1)[2] == u[3] && u[3] == t[3]);
        assert(u.skip(1)[3] == u[4] && u[4] == t[4]);
    }
    assert(small_integer(u) == Some((unicode as nat, (s.len() - at - w.len()) as nat)));
}

proof fn lemma_shard_prefix(records: Seq<(Seq<u8>, u32)>, k: int, n: int)
    requires
        0 <= k <= n <= records.len(),
    ensures
        shard_bytes(records, k).len() <= shard_bytes(records, n).len(),
        shard_bytes(records, n).take(shard_bytes(records, k).len() as int) == shard_bytes(
            records,
            k,
        ),
    decreases n,
{
    let head = shard_bytes(records, k);
    if k < n {
        lemma_shard_prefix(records, k, n - 1);
        let before = shard_bytes(records, n - 1);
        assert(shard_bytes(records, n).take(head.len() as int) =~= before.take(head.len() as int));
    } else {
        assert(head.take(head.len() as int) =~= head);
    }
}

proof fn lemma_shard_is_read(records: Seq<(Seq<u8>, u32)>, k: int)
    requires
        0 <= k <= records.len(),
        forall|i: int| 0 <= i < records.len() ==> (#[trigger] records[i]).0.len() == KEY_LEN,
    ensures
        entries_from(
            shard_bytes(records, records.len() as int),
            shard_bytes(records, k).len() as int,
            record_entries(records, k),
        ) == record_entries(records, records.len() as int),
    decreases records.len() - k,
{
    let n = records.len() as int;
    let s = shard_bytes(records, n);
    let at = shard_bytes(records, k).len() as int;
    lemma_shard_prefix(records, k, n);
    if k < n {
        let w = record_bytes(records[k].0, records[k].1);
        lemma_shard_prefix(records, k + 1, n);
        let next = shard_bytes(records, k + 1);
        assert(next =~= shard_bytes(records, k) + w);
        assert(s.subrange(at, at + w.len()) =~= w) by {
            assert forall|i: int| 0 <= i < w.len() implies s[at + i] == w[i] by {
                assert(s.take(next.len() as int)[at + i] == next[at + i]);
            }
        }
        lemma_record_is_read(s, at, records[k].0, records[k].1);
        lemma_shard_is_read(records, k + 1);
    } else {
        assert(array_header(s.skip(at)) is None);
    }
}

/// A shard gives back the records that were written to it, the later of two with one key.
pub proof fn law_written_shards_are_read(records: Seq<(Seq<u8>, u32)>)
    requires
        forall|i: int| 0 <= i < records.len() ==> (#[trigger] records[i]).0.len() == KEY_LEN,
    ensures
        shard_entries(shard_bytes(records, records.len() as int)) == record_entries(
            records,
            records.len() as int,
        ),
{
    lemma_shard_is_read(records, 0);
}

} // verus!
