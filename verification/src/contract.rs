//! The contract artifact model: construction, network registration, gas
//! estimates, method lookup, and the JSON document encoding with its
//! round-trip guarantee.

use crate::abi::Abi;
use crate::abi::AbiV;
use crate::abi::Function;
use crate::abi::FunctionV;
use crate::abi::SchemaError;
use crate::abi::SchemaErrorV;
use crate::json::Json;
use crate::json::JsonV;
use crate::text::str_eq;
use vstd::prelude::*;

verus! {

/// The lowercase hexadecimal digits, in value order.
pub open spec fn hex_digits() -> Seq<char> {
    seq![
        '0', '1', '2', '3', '4', '5', '6', '7', '8', '9', 'a', 'b', 'c', 'd', 'e', 'f',
    ]
}

/// The lowercase digit for a value below sixteen.
pub open spec fn hex_char(n: u8) -> char {
    hex_digits()[n as int]
}

pub open spec fn is_hex_digit(c: char) -> bool {
    ('0' <= c && c <= '9') || ('a' <= c && c <= 'f') || ('A' <= c && c <= 'F')
}

/// The value of one hexadecimal digit.
pub open spec fn hex_val(c: char) -> u8 {
    if '0' <= c && c <= '9' {
        (c as u32 - 48) as u8
    } else if 'a' <= c && c <= 'f' {
        (c as u32 - 87) as u8
    } else {
        (c as u32 - 55) as u8
    }
}

/// The lowercase hexadecimal text of a byte string, two digits per byte.
pub open spec fn bytes_to_hex(bs: Seq<u8>) -> Seq<char>
    decreases bs.len(),
{
    if bs.len() == 0 {
        Seq::empty()
    } else {
        seq![hex_char(bs[0] / 16), hex_char(bs[0] % 16)] + bytes_to_hex(bs.drop_first())
    }
}

/// The bytes a hexadecimal text denotes, if it is well-formed: an even
/// number of hexadecimal digits.
pub open spec fn hex_to_bytes(s: Seq<char>) -> Option<Seq<u8>>
    decreases s.len(),
{
    if s.len() == 0 {
        Some(Seq::empty())
    } else if s.len() == 1 {
        None
    } else if is_hex_digit(s[0]) && is_hex_digit(s[1]) {
        match hex_to_bytes(s.skip(2)) {
            Some(bs) => Some(seq![(16 * hex_val(s[0]) + hex_val(s[1])) as u8] + bs),
            None => None,
        }
    } else {
        None
    }
}

/// Each digit's value is recovered from its character.
pub proof fn lemma_hex_digit_val(n: u8)
    requires
        n < 16,
    ensures
        is_hex_digit(hex_char(n)),
        hex_val(hex_char(n)) == n,
        hex_char(n) != '"' && hex_char(n) != '\\',
{
}

/// Hexadecimal encoding round trips.
pub proof fn lemma_hex_round_trip(bs: Seq<u8>)
    ensures
        hex_to_bytes(bytes_to_hex(bs)) == Some(bs),
        bytes_to_hex(bs).len() == 2 * bs.len(),
    decreases bs.len(),
{
    if bs.len() == 0 {
        assert(bs =~= Seq::<u8>::empty());
    } else {
        lemma_hex_round_trip(bs.drop_first());
        let hi = bs[0] / 16;
        let lo = bs[0] % 16;
        lemma_hex_digit_val(hi);
        lemma_hex_digit_val(lo);
        let s = bytes_to_hex(bs);
        assert(s[0] == hex_char(hi) && s[1] == hex_char(lo));
        assert(s.skip(2) =~= bytes_to_hex(bs.drop_first()));
        assert((16 * hex_val(s[0]) + hex_val(s[1])) as u8 == bs[0]);
        assert(seq![bs[0]] + bs.drop_first() =~= bs);
    }
}

/// A fixed-size twenty-byte deployment address.
#[derive(Debug, PartialEq)]
pub struct Address {
    bytes: Vec<u8>,
}

impl View for Address {
    type V = Seq<u8>;

    closed spec fn view(&self) -> Seq<u8> {
        self.bytes@
    }
}

impl Address {
    /// A valid address holds exactly twenty bytes.
    pub open spec fn wf(&self) -> bool {
        self@.len() == 20
    }

    /// Builds an address from its twenty bytes.
    pub fn from_bytes(bytes: Vec<u8>) -> (r: Address)
        requires
            bytes@.len() == 20,
        ensures
            r@ == bytes@,
            r.wf(),
    {
        Address { bytes }
    }

    /// An owned copy of the address.
    pub fn duplicate(&self) -> (r: Address)
        ensures
            r@ == self@,
    {
        let mut out: Vec<u8> = Vec::new();
        let mut i: usize = 0;
        while i < self.bytes.len()
            invariant
                i <= self.bytes@.len(),
                out@ == self.bytes@.take(i as int),
            decreases self.bytes@.len() - i,
        {
            out.push(self.bytes[i]);
            proof {
                assert(self.bytes@.take((i + 1) as int) =~= self.bytes@.take(i as int).push(
                    self.bytes@[i as int],
                ));
            }
            i += 1;
        }
        proof {
            assert(self.bytes@.take(self.bytes@.len() as int) =~= self.bytes@);
        }
        Address { bytes: out }
    }

    /// The canonical text of the address: `0x` and forty lowercase digits.
    pub fn to_hex(&self) -> (r: String)
        ensures
            r@ == seq!['0', 'x'] + bytes_to_hex(self@),
    {
        let mut out: Vec<char> = Vec::new();
        out.push('0');
        out.push('x');
        let ghost base = out@;
        let mut i: usize = 0;
        proof {
            assert(self@.skip(0) =~= self@);
            assert(base + Seq::<char>::empty() =~= base);
        }
        while i < self.bytes.len()
            invariant
                i <= self.bytes@.len(),
                out@ + bytes_to_hex(self@.skip(i as int)) == base + bytes_to_hex(self@),
                out@.len() == 2 + 2 * i,
            decreases self.bytes@.len() - i,
        {
            let b = self.bytes[i];
            let ghost prev = out@;
            out.push(hex_digit_exec(b / 16));
            out.push(hex_digit_exec(b % 16));
            proof {
                let tail = self@.skip(i as int);
                assert(tail[0] == self@[i as int]);
                assert(tail.drop_first() =~= self@.skip(i as int + 1));
                assert(bytes_to_hex(tail) == seq![
                    hex_char(self@[i as int] / 16),
                    hex_char(self@[i as int] % 16),
                ] + bytes_to_hex(self@.skip(i as int + 1)));
                assert(out@ =~= prev + seq![
                    hex_char(self@[i as int] / 16),
                    hex_char(self@[i as int] % 16),
                ]);
                assert(out@ + bytes_to_hex(self@.skip(i as int + 1)) =~= prev + bytes_to_hex(
                    self@.skip(i as int),
                ));
            }
            i += 1;
        }
        proof {
            assert(bytes_to_hex(self@.skip(self.bytes@.len() as int)) =~= Seq::<char>::empty());
            assert(out@ + Seq::<char>::empty() =~= out@);
        }
        crate::text::chars_to_string(out.as_slice())
    }

    /// Parses an address from forty hexadecimal digits, with an optional
    /// `0x` prefix. Returns nothing on any other input.
    #[verifier::loop_isolation(false)]
    pub fn from_hex(s: &str) -> (r: Option<Address>)
        ensures
            match r {
                Some(a) => parse_address(s@) == Some(a@) && a.wf(),
                None => parse_address(s@) is None,
            },
    {
        let cs = crate::text::str_to_chars(s);
        let body: &[char] = if cs.len() >= 2 && cs[0] == '0' && cs[1] == 'x' {
            vstd::slice::slice_subrange(cs.as_slice(), 2, cs.len())
        } else {
            cs.as_slice()
        };
        proof {
            if cs@.len() >= 2 && cs@[0] == '0' && cs@[1] == 'x' {
                assert(body@ =~= s@.skip(2));
            } else {
                assert(body@ =~= s@);
            }
        }
        if body.len() != 40 {
            return None;
        }
        let mut bytes: Vec<u8> = Vec::new();
        let mut i: usize = 0;
        proof {
            assert(body@.skip(0) =~= body@);
        }
        while i < 20
            invariant
                i <= 20,
                body@.len() == 40,
                bytes@.len() == i,
                match hex_to_bytes(body@.skip(2 * i as int)) {
                    Some(bs) => hex_to_bytes(body@) == Some(bytes@ + bs),
                    None => hex_to_bytes(body@) is None,
                },
            decreases 20 - i,
        {
            let c0 = body[2 * i];
            let c1 = body[2 * i + 1];
            proof {
                let tail = body@.skip(2 * i as int);
                assert(tail[0] == body@[2 * i as int]);
                assert(tail[1] == body@[2 * i as int + 1]);
                assert(tail.skip(2) =~= body@.skip(2 * i as int + 2));
            }
            let v0 = match hex_val_exec(c0) {
                Some(v) => v,
                None => {
                    return None;
                },
            };
            let v1 = match hex_val_exec(c1) {
                Some(v) => v,
                None => {
                    return None;
                },
            };
            let ghost prev = bytes@;
            bytes.push(16 * v0 + v1);
            proof {
                if hex_to_bytes(body@.skip(2 * i as int + 2)) is Some {
                    let bs2 = hex_to_bytes(body@.skip(2 * i as int + 2))->Some_0;
                    assert(prev + (seq![(16 * hex_val(c0) + hex_val(c1)) as u8] + bs2)
                        =~= bytes@ + bs2);
                }
            }
            i += 1;
        }
        proof {
            assert(body@.skip(40) =~= Seq::<char>::empty());
            assert(hex_to_bytes(body@.skip(40)) == Some(Seq::<u8>::empty()));
            assert(bytes@ + Seq::<u8>::empty() =~= bytes@);
        }
        Some(Address { bytes })
    }
}

/// The bytes an address text denotes: forty hexadecimal digits, with an
/// optional `0x` prefix.
pub open spec fn parse_address(s: Seq<char>) -> Option<Seq<u8>> {
    let body = if s.len() >= 2 && s[0] == '0' && s[1] == 'x' {
        s.skip(2)
    } else {
        s
    };
    if body.len() != 40 {
        None
    } else {
        hex_to_bytes(body)
    }
}

/// The canonical address text round trips.
pub proof fn lemma_address_round_trip(bs: Seq<u8>)
    requires
        bs.len() == 20,
    ensures
        parse_address(seq!['0', 'x'] + bytes_to_hex(bs)) == Some(bs),
{
    lemma_hex_round_trip(bs);
    let s = seq!['0', 'x'] + bytes_to_hex(bs);
    assert(s.skip(2) =~= bytes_to_hex(bs));
}

/// The digit character for a value below sixteen.
fn hex_digit_exec(n: u8) -> (c: char)
    requires
        n < 16,
    ensures
        c == hex_char(n),
{
    let c = if n == 0 {
        '0'
    } else if n == 1 {
        '1'
    } else if n == 2 {
        '2'
    } else if n == 3 {
        '3'
    } else if n == 4 {
        '4'
    } else if n == 5 {
        '5'
    } else if n == 6 {
        '6'
    } else if n == 7 {
        '7'
    } else if n == 8 {
        '8'
    } else if n == 9 {
        '9'
    } else if n == 10 {
        'a'
    } else if n == 11 {
        'b'
    } else if n == 12 {
        'c'
    } else if n == 13 {
        'd'
    } else if n == 14 {
        'e'
    } else {
        'f'
    };
    c
}

/// The value of a hexadecimal digit character, if it is one.
fn hex_val_exec(c: char) -> (r: Option<u8>)
    ensures
        match r {
            Some(v) => is_hex_digit(c) && v == hex_val(c) && v < 16,
            None => !is_hex_digit(c),
        },
{
    let u = c as u32;
    if 48 <= u && u <= 57 {
        Some((u - 48) as u8)
    } else if 97 <= u && u <= 102 {
        Some((u - 87) as u8)
    } else if 65 <= u && u <= 70 {
        Some((u - 55) as u8)
    } else {
        None
    }
}

/// The view of a key-value entry list: each key by its characters.
pub open spec fn smap_view<V>(es: Seq<(String, V)>) -> Seq<(Seq<char>, V)>
    decreases es,
{
    if es.len() == 0 {
        Seq::empty()
    } else {
        seq![(es[0].0@, es[0].1)] + smap_view(es.drop_first())
    }
}

/// The entry view, pointwise.
pub proof fn lemma_smap_view<V>(es: Seq<(String, V)>)
    ensures
        smap_view(es).len() == es.len(),
        forall|i: int|
            0 <= i < es.len() ==> #[trigger] smap_view(es)[i] == (es[i].0@, es[i].1),
    decreases es.len(),
{
    if es.len() > 0 {
        lemma_smap_view(es.drop_first());
        assert(smap_view(es) == seq![(es[0].0@, es[0].1)] + smap_view(es.drop_first()));
        assert forall|i: int|
            0 <= i < es.len() implies #[trigger] smap_view(es)[i] == (es[i].0@, es[i].1) by {
            if i > 0 {
                assert(smap_view(es)[i] == smap_view(es.drop_first())[i - 1]);
                assert(es.drop_first()[i - 1] == es[i]);
            }
        }
    }
}

/// The position of the first entry with the given key, or a negative
/// number when there is none.
pub open spec fn map_key_idx<V>(s: Seq<(Seq<char>, V)>, k: Seq<char>) -> int
    decreases s.len(),
{
    if s.len() == 0 {
        -1
    } else if s[0].0 == k {
        0
    } else {
        let r = map_key_idx(s.drop_first(), k);
        if r < 0 {
            -1
        } else {
            r + 1
        }
    }
}

/// What the key position means.
pub proof fn lemma_map_key_idx<V>(s: Seq<(Seq<char>, V)>, k: Seq<char>)
    ensures
        map_key_idx(s, k) >= 0 ==> 0 <= map_key_idx(s, k) < s.len() && s[map_key_idx(s, k)].0
            == k && (forall|j: int| 0 <= j < map_key_idx(s, k) ==> (#[trigger] s[j]).0 != k),
        map_key_idx(s, k) < 0 ==> (forall|j: int| 0 <= j < s.len() ==> (#[trigger] s[j]).0 != k),
    decreases s.len(),
{
    if s.len() > 0 && s[0].0 != k {
        lemma_map_key_idx(s.drop_first(), k);
        assert forall|j: int| 1 <= j < s.len() implies (#[trigger] s[j]).0 == s.drop_first()[j
            - 1].0 by {}
    }
}

/// Whether the map holds the key.
pub open spec fn map_contains<V>(s: Seq<(Seq<char>, V)>, k: Seq<char>) -> bool {
    map_key_idx(s, k) >= 0
}

/// The value under a key, if any.
pub open spec fn map_get<V>(s: Seq<(Seq<char>, V)>, k: Seq<char>) -> Option<V> {
    if map_key_idx(s, k) >= 0 {
        Some(s[map_key_idx(s, k)].1)
    } else {
        None
    }
}

/// Upsert: the first entry with the key is replaced in place, and a new
/// entry goes to the end.
pub open spec fn map_insert<V>(s: Seq<(Seq<char>, V)>, k: Seq<char>, v: V) -> Seq<
    (Seq<char>, V),
> {
    if map_key_idx(s, k) >= 0 {
        s.update(map_key_idx(s, k), (k, v))
    } else {
        s.push((k, v))
    }
}

/// Unique keys.
pub open spec fn map_wf<V>(s: Seq<(Seq<char>, V)>) -> bool {
    forall|i: int, j: int| 0 <= i < j < s.len() ==> (#[trigger] s[i]).0 != (#[trigger] s[j]).0
}

/// After an upsert, the inserted key holds the new value.
pub proof fn lemma_map_get_insert<V>(s: Seq<(Seq<char>, V)>, k: Seq<char>, v: V)
    ensures
        map_get(map_insert(s, k, v), k) == Some(v),
        map_contains(map_insert(s, k, v), k),
    decreases s.len(),
{
    lemma_map_key_idx(s, k);
    let t = map_insert(s, k, v);
    lemma_map_key_idx(t, k);
    if map_key_idx(s, k) >= 0 {
        let i = map_key_idx(s, k);
        assert(t[i].0 == k);
        if map_key_idx(t, k) != i {
            let w = map_key_idx(t, k);
            assert(t[w].0 == k);
            if w < i {
                assert(s[w] == t[w]);
            } else {
                assert(t[i].0 == k);
            }
        }
    } else {
        let w = map_key_idx(t, k);
        assert(t[s.len() as int].0 == k);
        if w >= 0 && w < s.len() {
            assert(s[w] == t[w]);
        }
        assert(w == s.len());
    }
}

/// An upsert leaves every other key's value alone.
pub proof fn lemma_map_get_insert_other<V>(
    s: Seq<(Seq<char>, V)>,
    k: Seq<char>,
    v: V,
    k2: Seq<char>,
)
    requires
        k2 != k,
    ensures
        map_get(map_insert(s, k, v), k2) == map_get(s, k2),
{
    lemma_map_key_idx(s, k);
    lemma_map_key_idx(s, k2);
    let t = map_insert(s, k, v);
    lemma_map_key_idx(t, k2);
    let i2 = map_key_idx(s, k2);
    let w = map_key_idx(t, k2);
    if i2 >= 0 {
        assert(t[i2].0 == k2);
        if w != i2 {
            if w >= 0 && w < i2 {
                assert(s[w].0 == t[w].0);
            } else {
                assert(t[i2].0 == k2);
            }
        }
        assert(w == i2);
        assert(t[i2].1 == s[i2].1);
    } else {
        if w >= 0 {
            if w < s.len() {
                assert(s[w].0 == t[w].0);
            }
        }
        assert(w < 0);
    }
}

/// An upsert keeps the keys unique.
pub proof fn lemma_map_insert_wf<V>(s: Seq<(Seq<char>, V)>, k: Seq<char>, v: V)
    requires
        map_wf(s),
    ensures
        map_wf(map_insert(s, k, v)),
{
    lemma_map_key_idx(s, k);
    let t = map_insert(s, k, v);
    assert forall|i: int, j: int|
        0 <= i < j < t.len() implies (#[trigger] t[i]).0 != (#[trigger] t[j]).0 by {
        if map_key_idx(s, k) >= 0 {
            let w = map_key_idx(s, k);
            if i != w && j != w {
                assert(t[i] == s[i] && t[j] == s[j]);
            } else if i == w {
                assert(t[i].0 == k && t[j] == s[j]);
                if s[j].0 == k {
                    if w < j {
                        assert(s[w].0 == k);
                        assert(false);
                    }
                }
            } else {
                assert(t[j].0 == k && t[i] == s[i]);
                assert(i < w);
            }
        } else {
            if j == s.len() {
                assert(t[j].0 == k && t[i] == s[i]);
            } else {
                assert(t[i] == s[i] && t[j] == s[j]);
            }
        }
    }
}

/// An ordered key-value table with string keys and unique keys; the last
/// write to a key wins.
#[derive(Debug, PartialEq)]
pub struct StringMap<V> {
    entries: Vec<(String, V)>,
}

impl<V> View for StringMap<V> {
    type V = Seq<(Seq<char>, V)>;

    closed spec fn view(&self) -> Seq<(Seq<char>, V)> {
        smap_view(self.entries@)
    }
}

impl<V> StringMap<V> {
    /// The empty table.
    pub fn new() -> (r: StringMap<V>)
        ensures
            r@ == Seq::<(Seq<char>, V)>::empty(),
            map_wf(r@),
    {
        let r = StringMap { entries: Vec::new() };
        proof {
            assert(r@ =~= Seq::<(Seq<char>, V)>::empty());
        }
        r
    }

    /// How many keys the table holds.
    pub fn len(&self) -> (r: usize)
        ensures
            r == self@.len(),
    {
        proof {
            lemma_smap_view(self.entries@);
        }
        self.entries.len()
    }

    /// The entries in order.
    pub fn entries(&self) -> (r: &Vec<(String, V)>)
        ensures
            smap_view(r@) == self@,
    {
        &self.entries
    }

    /// A borrow of the value under the key, if any.
    #[verifier::loop_isolation(false)]
    pub fn get<'a>(&'a self, key: &str) -> (r: Option<&'a V>)
        ensures
            match r {
                Some(v) => map_get(self@, key@) == Some(*v),
                None => map_get(self@, key@) is None,
            },
    {
        proof {
            lemma_smap_view(self.entries@);
            lemma_map_key_idx(self@, key@);
        }
        let mut i: usize = 0;
        while i < self.entries.len()
            invariant
                i <= self.entries@.len(),
                forall|j: int| 0 <= j < i ==> (#[trigger] self@[j]).0 != key@,
            decreases self.entries@.len() - i,
        {
            proof {
                lemma_smap_view(self.entries@);
                assert(self@[i as int] == (self.entries@[i as int].0@, self.entries@[i as int].1));
            }
            if str_eq(self.entries[i].0.as_str(), key) {
                proof {
                    assert(self@[i as int].0 == key@);
                    if map_key_idx(self@, key@) != i {
                        assert(map_key_idx(self@, key@) < i);
                    }
                }
                return Some(&self.entries[i].1);
            }
            i += 1;
        }
        proof {
            if map_key_idx(self@, key@) >= 0 {
                assert(self@[map_key_idx(self@, key@)].0 == key@);
            }
        }
        None
    }

    /// Upserts a key: the last write wins.
    #[verifier::loop_isolation(false)]
    pub fn insert(&mut self, key: String, value: V)
        ensures
            final(self)@ == map_insert(old(self)@, key@, value),
    {
        proof {
            lemma_smap_view(self.entries@);
            lemma_map_key_idx(self@, key@);
        }
        let ghost orig = self@;
        let mut i: usize = 0;
        while i < self.entries.len()
            invariant
                i <= self.entries@.len(),
                self@ == orig,
                forall|j: int| 0 <= j < i ==> (#[trigger] self@[j]).0 != key@,
            decreases self.entries@.len() - i,
        {
            proof {
                lemma_smap_view(self.entries@);
                assert(self@[i as int] == (self.entries@[i as int].0@, self.entries@[i as int].1));
            }
            if str_eq(self.entries[i].0.as_str(), key.as_str()) {
                proof {
                    assert(orig[i as int].0 == key@);
                    if map_key_idx(orig, key@) != i {
                        assert(map_key_idx(orig, key@) < i);
                    }
                    assert(map_key_idx(orig, key@) == i);
                }
                let ghost pre = self.entries@;
                let ghost gkey = key;
                let ghost gval = value;
                self.entries[i] = (key, value);
                proof {
                    assert(self.entries@ == pre.update(i as int, (gkey, gval)));
                    lemma_smap_view(self.entries@);
                    lemma_smap_view(pre);
                    assert(self@.len() == map_insert(orig, key@, value).len());
                    assert forall|j: int|
                        0 <= j < self@.len() implies #[trigger] self@[j] == map_insert(
                        orig,
                        key@,
                        value,
                    )[j] by {
                        if j != i {
                            assert(self.entries@[j] == pre[j]);
                            assert(self@[j] == (pre[j].0@, pre[j].1));
                            assert(orig[j] == (pre[j].0@, pre[j].1));
                        } else {
                            assert(self.entries@[j] == (gkey, gval));
                            assert(self@[j] == (gkey@, gval));
                        }
                    }
                    assert(self@ =~= map_insert(orig, key@, value));
                }
                return ;
            }
            i += 1;
        }
        proof {
            lemma_smap_view(self.entries@);
            if map_key_idx(orig, key@) >= 0 {
                assert(orig[map_key_idx(orig, key@)].0 == key@);
            }
            assert(map_key_idx(orig, key@) < 0);
        }
        let ghost before = self.entries@;
        self.entries.push((key, value));
        proof {
            lemma_smap_view(self.entries@);
            lemma_smap_view(before);
            assert forall|j: int|
                0 <= j < self@.len() implies #[trigger] self@[j] == map_insert(
                orig,
                key@,
                value,
            )[j] by {
                if j < before.len() {
                    assert(self.entries@[j] == before[j]);
                }
            }
            assert(self@ =~= map_insert(orig, key@, value));
        }
    }
}

/// A deployment target: its on-chain address.
#[derive(Debug, PartialEq)]
pub struct Network {
    address: Address,
}

impl View for Network {
    type V = Seq<u8>;

    closed spec fn view(&self) -> Seq<u8> {
        self.address@
    }
}

impl Network {
    /// A network at the given address.
    pub fn new(address: Address) -> (r: Network)
        ensures
            r@ == address@,
    {
        Network { address }
    }

    /// The deployment address.
    pub fn address(&self) -> (r: &Address)
        ensures
            r@ == self@,
    {
        &self.address
    }
}

/// The gas costs one correlated parse reported: the construction cost and
/// the per-method costs of external and internal calls. Costs stay opaque
/// text.
#[derive(Debug, PartialEq)]
pub struct GasEstimates {
    pub construction: String,
    pub external: StringMap<String>,
    pub internal: StringMap<String>,
}

/// Model of the gas costs.
pub struct GasV {
    pub construction: Seq<char>,
    pub external: Seq<(Seq<char>, Seq<char>)>,
    pub internal: Seq<(Seq<char>, Seq<char>)>,
}

/// String values of a table, by their characters.
pub open spec fn sv_pairs(s: Seq<(Seq<char>, String)>) -> Seq<(Seq<char>, Seq<char>)>
    decreases s,
{
    if s.len() == 0 {
        Seq::empty()
    } else {
        seq![(s[0].0, s[0].1@)] + sv_pairs(s.drop_first())
    }
}

pub proof fn lemma_sv_pairs(s: Seq<(Seq<char>, String)>)
    ensures
        sv_pairs(s).len() == s.len(),
        forall|i: int| 0 <= i < s.len() ==> #[trigger] sv_pairs(s)[i] == (s[i].0, s[i].1@),
    decreases s.len(),
{
    if s.len() > 0 {
        lemma_sv_pairs(s.drop_first());
        assert(sv_pairs(s) == seq![(s[0].0, s[0].1@)] + sv_pairs(s.drop_first()));
        assert forall|i: int|
            0 <= i < s.len() implies #[trigger] sv_pairs(s)[i] == (s[i].0, s[i].1@) by {
            if i > 0 {
                assert(sv_pairs(s)[i] == sv_pairs(s.drop_first())[i - 1]);
                assert(s.drop_first()[i - 1] == s[i]);
            }
        }
    }
}

/// Network values of a table, by their address bytes.
pub open spec fn net_pairs(s: Seq<(Seq<char>, Network)>) -> Seq<(Seq<char>, Seq<u8>)>
    decreases s,
{
    if s.len() == 0 {
        Seq::empty()
    } else {
        seq![(s[0].0, s[0].1@)] + net_pairs(s.drop_first())
    }
}

pub proof fn lemma_net_pairs(s: Seq<(Seq<char>, Network)>)
    ensures
        net_pairs(s).len() == s.len(),
        forall|i: int| 0 <= i < s.len() ==> #[trigger] net_pairs(s)[i] == (s[i].0, s[i].1@),
    decreases s.len(),
{
    if s.len() > 0 {
        lemma_net_pairs(s.drop_first());
        assert(net_pairs(s) == seq![(s[0].0, s[0].1@)] + net_pairs(s.drop_first()));
        assert forall|i: int|
            0 <= i < s.len() implies #[trigger] net_pairs(s)[i] == (s[i].0, s[i].1@) by {
            if i > 0 {
                assert(net_pairs(s)[i] == net_pairs(s.drop_first())[i - 1]);
                assert(s.drop_first()[i - 1] == s[i]);
            }
        }
    }
}

impl View for GasEstimates {
    type V = GasV;

    open spec fn view(&self) -> GasV {
        GasV {
            construction: self.construction@,
            external: sv_pairs(self.external@),
            internal: sv_pairs(self.internal@),
        }
    }
}

/// Model of a contract artifact.
pub struct ContractV {
    pub name: Seq<char>,
    pub abi: Seq<AbiV>,
    pub bin: Seq<char>,
    pub gas_estimates: Option<GasV>,
    pub networks: Seq<(Seq<char>, Seq<u8>)>,
}

/// A compiled contract artifact: its name, decoded ABI, bytecode text,
/// the gas estimates of the parse that produced it (when gas output was
/// requested), and the networks it is deployed on.
#[derive(Debug, PartialEq)]
pub struct Contract {
    pub name: String,
    pub abi: Vec<Abi>,
    pub bin: String,
    pub gas_estimates: Option<GasEstimates>,
    pub networks: StringMap<Network>,
}

impl View for Contract {
    type V = ContractV;

    open spec fn view(&self) -> ContractV {
        ContractV {
            name: self.name@,
            abi: self.abi.deep_view(),
            bin: self.bin@,
            gas_estimates: match &self.gas_estimates {
                None => None,
                Some(g) => Some(g@),
            },
            networks: net_pairs(self.networks@),
        }
    }
}

/// A valid artifact: non-empty name, unique keys in every table, and
/// twenty-byte addresses.
pub open spec fn contract_wf(c: ContractV) -> bool {
    &&& c.name.len() > 0
    &&& map_wf(c.networks)
    &&& (forall|i: int| 0 <= i < c.networks.len() ==> (#[trigger] c.networks[i]).1.len() == 20)
    &&& match c.gas_estimates {
        None => true,
        Some(g) => map_wf(g.external) && map_wf(g.internal),
    }
}

impl Contract {
    /// A fresh artifact: no gas estimates, no networks.
    pub fn new(name: String, abi: Vec<Abi>, bin: String) -> (r: Contract)
        requires
            name@.len() > 0,
        ensures
            r@.name == name@,
            r@.abi == abi.deep_view(),
            r@.bin == bin@,
            r@.gas_estimates is None,
            r@.networks == Seq::<(Seq<char>, Seq<u8>)>::empty(),
            contract_wf(r@),
    {
        let r = Contract {
            name,
            abi,
            bin,
            gas_estimates: None,
            networks: StringMap::new(),
        };
        proof {
            lemma_net_pairs(r.networks@);
            assert(r@.networks =~= Seq::<(Seq<char>, Seq<u8>)>::empty());
        }
        r
    }

    /// The artifact of one correlated parse: name, decoded ABI, bytecode
    /// and gas estimates all from the same section.
    pub fn from_solc_contract(c: crate::solc::SolcContract) -> (r: Contract)
        requires
            c.name@.len() > 0,
        ensures
            r@.name == c.name@,
            r@.abi == c.abi.deep_view(),
            r@.bin == c.bin@,
            r@.gas_estimates == (match c.gas_estimates {
                None => None::<GasV>,
                Some(g) => Some(g@),
            }),
            r@.networks == Seq::<(Seq<char>, Seq<u8>)>::empty(),
    {
        let r = Contract {
            name: c.name,
            abi: c.abi,
            bin: c.bin,
            gas_estimates: c.gas_estimates,
            networks: StringMap::new(),
        };
        proof {
            lemma_net_pairs(r.networks@);
            assert(r@.networks =~= Seq::<(Seq<char>, Seq<u8>)>::empty());
        }
        r
    }

    /// Registers a deployment: the last write to a network wins.
    pub fn add_network(&mut self, net_version: &str, address: Address)
        ensures
            final(self)@.networks == map_insert(old(self)@.networks, net_version@, address@),
            final(self)@.name == old(self)@.name,
            final(self)@.abi == old(self)@.abi,
            final(self)@.bin == old(self)@.bin,
            final(self)@.gas_estimates == old(self)@.gas_estimates,
    {
        let ghost orig = self.networks@;
        let ghost addr_bytes = address@;
        self.networks.insert(String::from_str(net_version), Network::new(address));
        proof {
            lemma_net_pairs(orig);
            lemma_net_pairs(self.networks@);
            lemma_map_key_idx(orig, net_version@);
            lemma_map_key_idx(net_pairs(orig), net_version@);
            lemma_net_idx(orig, net_version@);
            let a = net_pairs(self.networks@);
            let b = map_insert(net_pairs(orig), net_version@, addr_bytes);
            assert forall|j: int| 0 <= j < a.len() implies a[j] == b[j] by {
                if map_key_idx(orig, net_version@) >= 0 {
                    let w = map_key_idx(orig, net_version@);
                    if j != w {
                        assert(self.networks@[j] == orig[j]);
                    } else {
                        assert(self.networks@[j].0 == net_version@);
                        assert(self.networks@[j].1@ == addr_bytes);
                    }
                } else {
                    if j < orig.len() {
                        assert(self.networks@[j] == orig[j]);
                    } else {
                        assert(self.networks@[j].0 == net_version@);
                        assert(self.networks@[j].1@ == addr_bytes);
                    }
                }
            }
            assert(a =~= b);
        }
    }

    /// The address registered for the network, if any.
    pub fn get_address(&self, net_version: &str) -> (r: Option<Address>)
        ensures
            match r {
                Some(a) => map_get(self@.networks, net_version@) == Some(a@),
                None => map_get(self@.networks, net_version@) is None,
            },
    {
        proof {
            lemma_net_pairs(self.networks@);
            lemma_net_idx(self.networks@, net_version@);
            lemma_map_key_idx(self.networks@, net_version@);
        }
        match self.networks.get(net_version) {
            Some(n) => Some(n.address().duplicate()),
            None => None,
        }
    }
}

/// Key positions agree between a network table and its view.
pub proof fn lemma_net_idx(s: Seq<(Seq<char>, Network)>, k: Seq<char>)
    ensures
        map_key_idx(net_pairs(s), k) == map_key_idx(s, k),
    decreases s.len(),
{
    lemma_net_pairs(s);
    if s.len() > 0 {
        lemma_net_idx(s.drop_first(), k);
        assert(net_pairs(s) == seq![(s[0].0, s[0].1@)] + net_pairs(s.drop_first()));
        assert(net_pairs(s).drop_first() =~= net_pairs(s.drop_first()));
    }
}

/// Registering a deployment and reading it back: the registered network
/// answers with exactly that address, and a network that was never
/// registered still answers with nothing.
pub proof fn lemma_register_then_read(
    networks: Seq<(Seq<char>, Seq<u8>)>,
    id: Seq<char>,
    addr: Seq<u8>,
    other: Seq<char>,
)
    requires
        other != id,
        !map_contains(networks, other),
    ensures
        map_get(map_insert(networks, id, addr), id) == Some(addr),
        map_get(map_insert(networks, id, addr), other) is None,
{
    lemma_map_get_insert(networks, id, addr);
    lemma_map_get_insert_other(networks, id, addr, other);
}

/// Registering the same network twice: only the second address remains.
pub proof fn lemma_last_write_wins(
    networks: Seq<(Seq<char>, Seq<u8>)>,
    id: Seq<char>,
    first: Seq<u8>,
    second: Seq<u8>,
)
    ensures
        map_get(map_insert(map_insert(networks, id, first), id, second), id) == Some(second),
{
    lemma_map_get_insert(map_insert(networks, id, first), id, second);
}

/// The document member keys.
pub open spec fn dk_name() -> Seq<char> {
    seq!['n', 'a', 'm', 'e']
}

pub open spec fn dk_abi() -> Seq<char> {
    seq!['a', 'b', 'i']
}

pub open spec fn dk_bin() -> Seq<char> {
    seq!['b', 'i', 'n']
}

pub open spec fn dk_gas() -> Seq<char> {
    seq!['g', 'a', 's', '_', 'e', 's', 't', 'i', 'm', 'a', 't', 'e', 's']
}

pub open spec fn dk_networks() -> Seq<char> {
    seq!['n', 'e', 't', 'w', 'o', 'r', 'k', 's']
}

pub open spec fn dk_construction() -> Seq<char> {
    seq!['c', 'o', 'n', 's', 't', 'r', 'u', 'c', 't', 'i', 'o', 'n']
}

pub open spec fn dk_external() -> Seq<char> {
    seq!['e', 'x', 't', 'e', 'r', 'n', 'a', 'l']
}

pub open spec fn dk_internal() -> Seq<char> {
    seq!['i', 'n', 't', 'e', 'r', 'n', 'a', 'l']
}

pub open spec fn dk_address() -> Seq<char> {
    seq!['a', 'd', 'd', 'r', 'e', 's', 's']
}

/// A cost table as JSON object members, in order.
pub open spec fn costs_to_members(s: Seq<(Seq<char>, Seq<char>)>) -> Seq<(Seq<char>, JsonV)>
    decreases s,
{
    if s.len() == 0 {
        Seq::empty()
    } else {
        seq![(s[0].0, JsonV::Str(s[0].1))] + costs_to_members(s.drop_first())
    }
}

/// A network table as JSON object members, in order: each value is an
/// object with the canonical address text.
pub open spec fn nets_to_members(s: Seq<(Seq<char>, Seq<u8>)>) -> Seq<(Seq<char>, JsonV)>
    decreases s,
{
    if s.len() == 0 {
        Seq::empty()
    } else {
        seq![
            (
                s[0].0,
                JsonV::Obj(
                    seq![(dk_address(), JsonV::Str(seq!['0', 'x'] + bytes_to_hex(s[0].1)))],
                ),
            ),
        ] + nets_to_members(s.drop_first())
    }
}

/// The gas estimates as a JSON object.
pub open spec fn gas_to_jv(g: GasV) -> JsonV {
    JsonV::Obj(
        seq![
            (dk_construction(), JsonV::Str(g.construction)),
            (dk_external(), JsonV::Obj(costs_to_members(g.external))),
            (dk_internal(), JsonV::Obj(costs_to_members(g.internal))),
        ],
    )
}

/// The whole artifact as a JSON object: name, abi, bin, the gas estimates
/// when present, and the networks.
pub open spec fn contract_to_jv(c: ContractV) -> JsonV {
    let base = seq![
        (dk_name(), JsonV::Str(c.name)),
        (dk_abi(), crate::abi::abi_to_jv(c.abi)),
        (dk_bin(), JsonV::Str(c.bin)),
    ];
    let with_gas = match c.gas_estimates {
        None => base,
        Some(g) => base.push((dk_gas(), gas_to_jv(g))),
    };
    JsonV::Obj(with_gas.push((dk_networks(), JsonV::Obj(nets_to_members(c.networks)))))
}

/// Decodes a cost table: every member must be a string; repeated keys
/// upsert, the last write winning.
pub open spec fn costs_from_members(ms: Seq<(Seq<char>, JsonV)>) -> Result<
    Seq<(Seq<char>, Seq<char>)>,
    SchemaErrorV,
>
    decreases ms.len(),
{
    if ms.len() == 0 {
        Ok(Seq::empty())
    } else {
        match costs_from_members(ms.drop_last()) {
            Err(e) => Err(e),
            Ok(acc) => match ms[ms.len() - 1].1 {
                JsonV::Str(v) => Ok(map_insert(acc, ms[ms.len() - 1].0, v)),
                _ => Err(SchemaErrorV::UnrecognizedEntry),
            },
        }
    }
}

/// Decodes a network table: every member must be an object holding the
/// canonical address text; repeated keys upsert.
pub open spec fn nets_from_members(ms: Seq<(Seq<char>, JsonV)>) -> Result<
    Seq<(Seq<char>, Seq<u8>)>,
    SchemaErrorV,
>
    decreases ms.len(),
{
    if ms.len() == 0 {
        Ok(Seq::empty())
    } else {
        match nets_from_members(ms.drop_last()) {
            Err(e) => Err(e),
            Ok(acc) => match ms[ms.len() - 1].1 {
                JsonV::Obj(nm) => match crate::abi::jv_get(nm, dk_address()) {
                    Some(JsonV::Str(hex)) => match parse_address(hex) {
                        Some(bs) => Ok(map_insert(acc, ms[ms.len() - 1].0, bs)),
                        None => Err(SchemaErrorV::UnrecognizedEntry),
                    },
                    _ => Err(SchemaErrorV::UnrecognizedEntry),
                },
                _ => Err(SchemaErrorV::UnrecognizedEntry),
            },
        }
    }
}

/// Decodes the gas estimates object.
pub open spec fn gas_from_jv(j: JsonV) -> Result<GasV, SchemaErrorV> {
    match j {
        JsonV::Obj(ms) => match crate::abi::str_field(ms, dk_construction()) {
            Err(e) => Err(e),
            Ok(construction) => match crate::abi::jv_get(ms, dk_external()) {
                Some(JsonV::Obj(ext_ms)) => match costs_from_members(ext_ms) {
                    Err(e) => Err(e),
                    Ok(external) => match crate::abi::jv_get(ms, dk_internal()) {
                        Some(JsonV::Obj(int_ms)) => match costs_from_members(int_ms) {
                            Err(e) => Err(e),
                            Ok(internal) => Ok(GasV { construction, external, internal }),
                        },
                        Some(_) => Err(SchemaErrorV::UnrecognizedEntry),
                        None => Err(SchemaErrorV::MissingField(dk_internal())),
                    },
                },
                Some(_) => Err(SchemaErrorV::UnrecognizedEntry),
                None => Err(SchemaErrorV::MissingField(dk_external())),
            },
        },
        _ => Err(SchemaErrorV::UnrecognizedEntry),
    }
}

/// Decodes a whole artifact document.
pub open spec fn contract_from_jv(j: JsonV) -> Result<ContractV, SchemaErrorV> {
    match j {
        JsonV::Obj(ms) => match crate::abi::str_field(ms, dk_name()) {
            Err(e) => Err(e),
            Ok(name) => if name.len() == 0 {
                Err(SchemaErrorV::UnrecognizedEntry)
            } else {
                match crate::abi::jv_get(ms, dk_abi()) {
                    Some(JsonV::Arr(items)) => match crate::abi::decode_entries(items) {
                        Err(e) => Err(e),
                        Ok(abi) => match crate::abi::str_field(ms, dk_bin()) {
                            Err(e) => Err(e),
                            Ok(bin) => {
                                let gas_step = match crate::abi::jv_get(ms, dk_gas()) {
                                    None => Ok(None),
                                    Some(JsonV::Null) => Ok(None),
                                    Some(g) => match gas_from_jv(g) {
                                        Ok(gv) => Ok(Some(gv)),
                                        Err(e) => Err(e),
                                    },
                                };
                                match gas_step {
                                    Err(e) => Err(e),
                                    Ok(gas_estimates) => match crate::abi::jv_get(
                                        ms,
                                        dk_networks(),
                                    ) {
                                        Some(JsonV::Obj(nms)) => match nets_from_members(nms) {
                                            Err(e) => Err(e),
                                            Ok(networks) => Ok(
                                                ContractV {
                                                    name,
                                                    abi,
                                                    bin,
                                                    gas_estimates,
                                                    networks,
                                                },
                                            ),
                                        },
                                        Some(_) => Err(SchemaErrorV::UnrecognizedEntry),
                                        None => Err(SchemaErrorV::MissingField(dk_networks())),
                                    },
                                }
                            },
                        },
                    },
                    Some(_) => Err(SchemaErrorV::UnrecognizedEntry),
                    None => Err(SchemaErrorV::MissingField(dk_abi())),
                }
            },
        },
        _ => Err(SchemaErrorV::UnrecognizedEntry),
    }
}

/// Decodes an artifact document from text.
pub open spec fn contract_from_text(s: Seq<char>) -> Result<ContractV, SchemaErrorV> {
    match crate::json::parse_text(s) {
        None => Err(SchemaErrorV::InvalidJson),
        Some(j) => contract_from_jv(j),
    }
}

/// The document keys that appear together are pairwise distinct.
pub proof fn lemma_dk_distinct()
    ensures
        dk_name() != dk_abi(),
        dk_name() != dk_bin(),
        dk_name() != dk_gas(),
        dk_name() != dk_networks(),
        dk_abi() != dk_bin(),
        dk_abi() != dk_gas(),
        dk_abi() != dk_networks(),
        dk_bin() != dk_gas(),
        dk_bin() != dk_networks(),
        dk_gas() != dk_networks(),
        dk_construction() != dk_external(),
        dk_construction() != dk_internal(),
        dk_external() != dk_internal(),
{
    assert(dk_name().len() == 4 && dk_abi().len() == 3 && dk_bin().len() == 3 && dk_gas().len()
        == 13 && dk_networks().len() == 8 && dk_construction().len() == 12 && dk_external().len()
        == 8 && dk_internal().len() == 8);
    assert(dk_abi()[0] == 'a' && dk_bin()[0] == 'b');
    assert(dk_external()[0] == 'e' && dk_internal()[0] == 'i' && dk_networks()[0] == 'n');
}

/// The cost members, pointwise.
pub proof fn lemma_costs_members(s: Seq<(Seq<char>, Seq<char>)>)
    ensures
        costs_to_members(s).len() == s.len(),
        forall|i: int|
            0 <= i < s.len() ==> #[trigger] costs_to_members(s)[i] == (
                s[i].0,
                JsonV::Str(s[i].1),
            ),
    decreases s.len(),
{
    if s.len() > 0 {
        lemma_costs_members(s.drop_first());
        assert(costs_to_members(s) == seq![(s[0].0, JsonV::Str(s[0].1))] + costs_to_members(
            s.drop_first(),
        ));
        assert forall|i: int|
            0 <= i < s.len() implies #[trigger] costs_to_members(s)[i] == (
            s[i].0,
            JsonV::Str(s[i].1),
        ) by {
            if i > 0 {
                assert(costs_to_members(s)[i] == costs_to_members(s.drop_first())[i - 1]);
                assert(s.drop_first()[i - 1] == s[i]);
            }
        }
    }
}

/// The network members, pointwise.
pub proof fn lemma_nets_members(s: Seq<(Seq<char>, Seq<u8>)>)
    ensures
        nets_to_members(s).len() == s.len(),
        forall|i: int|
            0 <= i < s.len() ==> #[trigger] nets_to_members(s)[i] == (
                s[i].0,
                JsonV::Obj(
                    seq![(dk_address(), JsonV::Str(seq!['0', 'x'] + bytes_to_hex(s[i].1)))],
                ),
            ),
    decreases s.len(),
{
    if s.len() > 0 {
        lemma_nets_members(s.drop_first());
        assert(nets_to_members(s) == seq![
            (
                s[0].0,
                JsonV::Obj(
                    seq![(dk_address(), JsonV::Str(seq!['0', 'x'] + bytes_to_hex(s[0].1)))],
                ),
            ),
        ] + nets_to_members(s.drop_first()));
        assert forall|i: int|
            0 <= i < s.len() implies #[trigger] nets_to_members(s)[i] == (
            s[i].0,
            JsonV::Obj(
                seq![(dk_address(), JsonV::Str(seq!['0', 'x'] + bytes_to_hex(s[i].1)))],
            ),
        ) by {
            if i > 0 {
                assert(nets_to_members(s)[i] == nets_to_members(s.drop_first())[i - 1]);
                assert(s.drop_first()[i - 1] == s[i]);
            }
        }
    }
}

/// Encoded cost tables decode to themselves.
pub proof fn lemma_costs_rt(s: Seq<(Seq<char>, Seq<char>)>)
    requires
        map_wf(s),
    ensures
        costs_from_members(costs_to_members(s)) == Ok::<
            Seq<(Seq<char>, Seq<char>)>,
            SchemaErrorV,
        >(s),
    decreases s.len(),
{
    lemma_costs_members(s);
    let ms = costs_to_members(s);
    if s.len() == 0 {
        assert(s =~= Seq::<(Seq<char>, Seq<char>)>::empty());
    } else {
        let d = s.drop_last();
        lemma_costs_members(d);
        assert(map_wf(d)) by {
            assert forall|i: int, j: int|
                0 <= i < j < d.len() implies (#[trigger] d[i]).0 != (#[trigger] d[j]).0 by {
                assert(d[i] == s[i] && d[j] == s[j]);
            }
        }
        lemma_costs_rt(d);
        assert(ms.drop_last() =~= costs_to_members(d));
        assert(ms[ms.len() - 1] == (s[s.len() - 1].0, JsonV::Str(s[s.len() - 1].1)));
        lemma_map_key_idx(d, s[s.len() - 1].0);
        if map_key_idx(d, s[s.len() - 1].0) >= 0 {
            let w = map_key_idx(d, s[s.len() - 1].0);
            assert(d[w] == s[w]);
            assert(s[w].0 == s[s.len() - 1].0);
            assert(false);
        }
        assert(map_insert(d, s[s.len() - 1].0, s[s.len() - 1].1) == d.push(s[s.len() - 1]));
        assert(d.push(s[s.len() - 1]) =~= s);
    }
}

/// Encoded network tables decode to themselves.
pub proof fn lemma_nets_rt(s: Seq<(Seq<char>, Seq<u8>)>)
    requires
        map_wf(s),
        forall|i: int| 0 <= i < s.len() ==> (#[trigger] s[i]).1.len() == 20,
    ensures
        nets_from_members(nets_to_members(s)) == Ok::<Seq<(Seq<char>, Seq<u8>)>, SchemaErrorV>(
            s,
        ),
    decreases s.len(),
{
    lemma_nets_members(s);
    let ms = nets_to_members(s);
    if s.len() == 0 {
        assert(s =~= Seq::<(Seq<char>, Seq<u8>)>::empty());
    } else {
        let d = s.drop_last();
        lemma_nets_members(d);
        assert(map_wf(d)) by {
            assert forall|i: int, j: int|
                0 <= i < j < d.len() implies (#[trigger] d[i]).0 != (#[trigger] d[j]).0 by {
                assert(d[i] == s[i] && d[j] == s[j]);
            }
        }
        assert forall|i: int| 0 <= i < d.len() implies (#[trigger] d[i]).1.len() == 20 by {
            assert(d[i] == s[i]);
        }
        lemma_nets_rt(d);
        assert(ms.drop_last() =~= nets_to_members(d));
        let last = s[s.len() - 1];
        assert(ms[ms.len() - 1] == (
            last.0,
            JsonV::Obj(seq![(dk_address(), JsonV::Str(seq!['0', 'x'] + bytes_to_hex(last.1)))]),
        ));
        assert(last.1.len() == 20);
        lemma_address_round_trip(last.1);
        lemma_map_key_idx(d, last.0);
        if map_key_idx(d, last.0) >= 0 {
            let w = map_key_idx(d, last.0);
            assert(d[w] == s[w]);
            assert(false);
        }
        assert(map_insert(d, last.0, last.1) == d.push(last));
        assert(d.push(last) =~= s);
    }
}

/// An encoded gas object decodes to itself.
pub proof fn lemma_gas_rt(g: GasV)
    requires
        map_wf(g.external),
        map_wf(g.internal),
    ensures
        gas_from_jv(gas_to_jv(g)) == Ok::<GasV, SchemaErrorV>(g),
{
    lemma_dk_distinct();
    let ms = seq![
        (dk_construction(), JsonV::Str(g.construction)),
        (dk_external(), JsonV::Obj(costs_to_members(g.external))),
        (dk_internal(), JsonV::Obj(costs_to_members(g.internal))),
    ];
    let tail1 = ms.drop_first();
    let tail2 = tail1.drop_first();
    let tail3 = tail2.drop_first();
    assert(tail1 =~= ms.subrange(1, 3));
    assert(tail2 =~= ms.subrange(2, 3));
    assert(tail3 =~= Seq::<(Seq<char>, JsonV)>::empty());
    assert(crate::abi::jv_get(ms, dk_construction()) == Some(JsonV::Str(g.construction)));
    assert(crate::abi::jv_get(ms, dk_external()) == crate::abi::jv_get(tail1, dk_external()));
    assert(crate::abi::jv_get(tail1, dk_external()) == Some(JsonV::Obj(costs_to_members(g.external))));
    assert(crate::abi::jv_get(ms, dk_internal()) == crate::abi::jv_get(tail1, dk_internal()));
    assert(crate::abi::jv_get(tail1, dk_internal()) == crate::abi::jv_get(tail2, dk_internal()));
    assert(crate::abi::jv_get(tail2, dk_internal()) == Some(JsonV::Obj(costs_to_members(g.internal))));
    lemma_costs_rt(g.external);
    lemma_costs_rt(g.internal);
}

/// An encoded artifact document decodes to exactly the original artifact.
pub proof fn lemma_contract_rt(c: ContractV)
    requires
        contract_wf(c),
    ensures
        contract_from_jv(contract_to_jv(c)) == Ok::<ContractV, SchemaErrorV>(c),
{
    lemma_dk_distinct();
    let base = seq![
        (dk_name(), JsonV::Str(c.name)),
        (dk_abi(), crate::abi::abi_to_jv(c.abi)),
        (dk_bin(), JsonV::Str(c.bin)),
    ];
    let tail1 = base.drop_first();
    let tail2 = tail1.drop_first();
    let tail3 = tail2.drop_first();
    assert(tail1 =~= base.subrange(1, 3));
    assert(tail2 =~= base.subrange(2, 3));
    assert(tail3 =~= Seq::<(Seq<char>, JsonV)>::empty());
    assert(crate::abi::jv_get(base, dk_name()) == Some(JsonV::Str(c.name)));
    assert(crate::abi::jv_get(base, dk_abi()) == crate::abi::jv_get(tail1, dk_abi()));
    assert(crate::abi::jv_get(tail1, dk_abi()) == Some(crate::abi::abi_to_jv(c.abi)));
    assert(crate::abi::jv_get(base, dk_bin()) == crate::abi::jv_get(tail1, dk_bin()));
    assert(crate::abi::jv_get(tail1, dk_bin()) == crate::abi::jv_get(tail2, dk_bin()));
    assert(crate::abi::jv_get(tail2, dk_bin()) == Some(JsonV::Str(c.bin)));
    assert(crate::abi::jv_get(base, dk_gas()) == crate::abi::jv_get(tail1, dk_gas()));
    assert(crate::abi::jv_get(tail1, dk_gas()) == crate::abi::jv_get(tail2, dk_gas()));
    assert(crate::abi::jv_get(tail2, dk_gas()) == crate::abi::jv_get(tail3, dk_gas()));
    assert(crate::abi::jv_get(tail3, dk_gas()) is None);
    assert(crate::abi::jv_get(base, dk_networks()) == crate::abi::jv_get(tail1, dk_networks()));
    assert(crate::abi::jv_get(tail1, dk_networks()) == crate::abi::jv_get(tail2, dk_networks()));
    assert(crate::abi::jv_get(tail2, dk_networks()) == crate::abi::jv_get(tail3, dk_networks()));
    assert(crate::abi::jv_get(tail3, dk_networks()) is None);
    let with_gas = match c.gas_estimates {
        None => base,
        Some(g) => base.push((dk_gas(), gas_to_jv(g))),
    };
    match c.gas_estimates {
        None => {},
        Some(g) => {
            crate::abi::lemma_get_push(base, (dk_gas(), gas_to_jv(g)), dk_name());
            crate::abi::lemma_get_push(base, (dk_gas(), gas_to_jv(g)), dk_abi());
            crate::abi::lemma_get_push(base, (dk_gas(), gas_to_jv(g)), dk_bin());
            crate::abi::lemma_get_push(base, (dk_gas(), gas_to_jv(g)), dk_gas());
            crate::abi::lemma_get_push(base, (dk_gas(), gas_to_jv(g)), dk_networks());
            lemma_gas_rt(g);
        },
    }
    let nets = (dk_networks(), JsonV::Obj(nets_to_members(c.networks)));
    crate::abi::lemma_get_push(with_gas, nets, dk_name());
    crate::abi::lemma_get_push(with_gas, nets, dk_abi());
    crate::abi::lemma_get_push(with_gas, nets, dk_bin());
    crate::abi::lemma_get_push(with_gas, nets, dk_gas());
    crate::abi::lemma_get_push(with_gas, nets, dk_networks());
    crate::abi::lemma_rt_entries(c.abi);
    lemma_nets_rt(c.networks);
}

/// The encoded artifact document is well-formed JSON.
pub proof fn lemma_contract_wf_jv(c: ContractV)
    ensures
        crate::json::wf_jv(contract_to_jv(c)),
{
    crate::abi::lemma_wf_entries(c.abi);
    lemma_costs_wf(match c.gas_estimates {
        None => Seq::empty(),
        Some(g) => g.external,
    });
    lemma_costs_wf(match c.gas_estimates {
        None => Seq::empty(),
        Some(g) => g.internal,
    });
    lemma_nets_wf(c.networks);
    let base = seq![
        (dk_name(), JsonV::Str(c.name)),
        (dk_abi(), crate::abi::abi_to_jv(c.abi)),
        (dk_bin(), JsonV::Str(c.bin)),
    ];
    let with_gas = match c.gas_estimates {
        None => base,
        Some(g) => base.push((dk_gas(), gas_to_jv(g))),
    };
    let ms = with_gas.push((dk_networks(), JsonV::Obj(nets_to_members(c.networks))));
    crate::json::lemma_wf_obj_iff(ms);
    assert forall|i: int| 0 <= i < ms.len() implies crate::json::wf_jv(#[trigger] ms[i].1) by {
        match c.gas_estimates {
            None => {
                if i < 3 {
                    assert(ms[i] == base[i]);
                } else {
                    assert(ms[i].1 == JsonV::Obj(nets_to_members(c.networks)));
                }
            },
            Some(g) => {
                if i < 3 {
                    assert(ms[i] == base[i]);
                } else if i == 3 {
                    assert(ms[i].1 == gas_to_jv(g));
                    lemma_gas_wf_jv(g);
                } else {
                    assert(ms[i].1 == JsonV::Obj(nets_to_members(c.networks)));
                }
            },
        }
    }
}

/// The encoded gas object is well-formed JSON.
pub proof fn lemma_gas_wf_jv(g: GasV)
    ensures
        crate::json::wf_jv(gas_to_jv(g)),
{
    lemma_costs_wf(g.external);
    lemma_costs_wf(g.internal);
    let ms = seq![
        (dk_construction(), JsonV::Str(g.construction)),
        (dk_external(), JsonV::Obj(costs_to_members(g.external))),
        (dk_internal(), JsonV::Obj(costs_to_members(g.internal))),
    ];
    crate::json::lemma_wf_obj_iff(ms);
    assert forall|i: int| 0 <= i < ms.len() implies crate::json::wf_jv(#[trigger] ms[i].1) by {
        assert(ms[0].1 == JsonV::Str(g.construction));
        assert(ms[1].1 == JsonV::Obj(costs_to_members(g.external)));
        assert(ms[2].1 == JsonV::Obj(costs_to_members(g.internal)));
    }
}

/// Encoded cost members are well-formed JSON.
pub proof fn lemma_costs_wf(s: Seq<(Seq<char>, Seq<char>)>)
    ensures
        crate::json::wf_jv(JsonV::Obj(costs_to_members(s))),
{
    lemma_costs_members(s);
    crate::json::lemma_wf_obj_iff(costs_to_members(s));
    assert forall|i: int|
        0 <= i < costs_to_members(s).len() implies crate::json::wf_jv(
        #[trigger] costs_to_members(s)[i].1,
    ) by {
        assert(costs_to_members(s)[i] == (s[i].0, JsonV::Str(s[i].1)));
    }
}

/// Encoded network members are well-formed JSON.
pub proof fn lemma_nets_wf(s: Seq<(Seq<char>, Seq<u8>)>)
    ensures
        crate::json::wf_jv(JsonV::Obj(nets_to_members(s))),
{
    lemma_nets_members(s);
    crate::json::lemma_wf_obj_iff(nets_to_members(s));
    assert forall|i: int|
        0 <= i < nets_to_members(s).len() implies crate::json::wf_jv(
        #[trigger] nets_to_members(s)[i].1,
    ) by {
        let inner = seq![(dk_address(), JsonV::Str(seq!['0', 'x'] + bytes_to_hex(s[i].1)))];
        assert(nets_to_members(s)[i] == (s[i].0, JsonV::Obj(inner)));
        crate::json::lemma_wf_obj_iff(inner);
        assert forall|k: int| 0 <= k < inner.len() implies crate::json::wf_jv(
            #[trigger] inner[k].1,
        ) by {
            assert(inner[0].1 == JsonV::Str(seq!['0', 'x'] + bytes_to_hex(s[i].1)));
        }
    }
}

/// The full document round trip: printing an artifact, in either layout,
/// and parsing the text back yields exactly the original artifact.
pub proof fn lemma_contract_text_round_trip(c: ContractV, pretty: bool)
    requires
        contract_wf(c),
    ensures
        contract_from_text(crate::json::print_jv(contract_to_jv(c), pretty, 0)) == Ok::<
            ContractV,
            SchemaErrorV,
        >(c),
{
    lemma_contract_wf_jv(c);
    crate::json::lemma_print_parse_text(contract_to_jv(c), pretty);
    lemma_contract_rt(c);
}

/// The document keys, as string literals.
pub proof fn lemma_dk_lits()
    ensures
        "name"@ == dk_name(),
        "abi"@ == dk_abi(),
        "bin"@ == dk_bin(),
        "gas_estimates"@ == dk_gas(),
        "networks"@ == dk_networks(),
        "construction"@ == dk_construction(),
        "external"@ == dk_external(),
        "internal"@ == dk_internal(),
        "address"@ == dk_address(),
{
    reveal_strlit("name");
    reveal_strlit("abi");
    reveal_strlit("bin");
    reveal_strlit("gas_estimates");
    reveal_strlit("networks");
    reveal_strlit("construction");
    reveal_strlit("external");
    reveal_strlit("internal");
    reveal_strlit("address");
    assert("name"@ =~= dk_name());
    assert("abi"@ =~= dk_abi());
    assert("bin"@ =~= dk_bin());
    assert("gas_estimates"@ =~= dk_gas());
    assert("networks"@ =~= dk_networks());
    assert("construction"@ =~= dk_construction());
    assert("external"@ =~= dk_external());
    assert("internal"@ =~= dk_internal());
    assert("address"@ =~= dk_address());
}

/// Encodes a cost table as JSON object members.
#[verifier::loop_isolation(false)]
fn costs_to_members_exec(m: &StringMap<String>) -> (r: Vec<(String, Json)>)
    ensures
        r.deep_view() == costs_to_members(sv_pairs(m@)),
{
    let es = m.entries();
    let ghost dv = sv_pairs(m@);
    proof {
        lemma_smap_view(es@);
        lemma_sv_pairs(m@);
        lemma_costs_members(dv);
        assert(m@.len() == es@.len());
    }
    let mut out: Vec<(String, Json)> = Vec::new();
    let mut i: usize = 0;
    proof {
        assert(out.deep_view() =~= Seq::<(Seq<char>, JsonV)>::empty());
    }
    while i < es.len()
        invariant
            i <= es@.len(),
            dv.len() == es@.len(),
            out.deep_view() =~= costs_to_members(dv).take(i as int),
        decreases es@.len() - i,
    {
        let ghost old_out = out;
        let p = (es[i].0.clone(), Json::Str(es[i].1.clone()));
        let ghost gp = p;
        out.push(p);
        proof {
            crate::json::lemma_push_member_view(old_out, out, gp.0, gp.1);
            assert(m@[i as int] == (es@[i as int].0@, es@[i as int].1));
            assert(dv[i as int] == (m@[i as int].0, m@[i as int].1@));
            assert(costs_to_members(dv)[i as int] == (dv[i as int].0, JsonV::Str(dv[i as int].1)));
            assert(costs_to_members(dv).take(i + 1) =~= costs_to_members(dv).take(i as int).push(
                costs_to_members(dv)[i as int],
            ));
        }
        i += 1;
    }
    proof {
        assert(costs_to_members(dv).take(dv.len() as int) =~= costs_to_members(dv));
    }
    out
}

/// Encodes a network table as JSON object members.
#[verifier::loop_isolation(false)]
fn nets_to_members_exec(m: &StringMap<Network>) -> (r: Vec<(String, Json)>)
    ensures
        r.deep_view() == nets_to_members(net_pairs(m@)),
{
    let es = m.entries();
    let ghost dv = net_pairs(m@);
    proof {
        lemma_smap_view(es@);
        lemma_net_pairs(m@);
        lemma_nets_members(dv);
        lemma_dk_lits();
        assert(m@.len() == es@.len());
    }
    let mut out: Vec<(String, Json)> = Vec::new();
    let mut i: usize = 0;
    proof {
        assert(out.deep_view() =~= Seq::<(Seq<char>, JsonV)>::empty());
    }
    while i < es.len()
        invariant
            i <= es@.len(),
            dv.len() == es@.len(),
            out.deep_view() =~= nets_to_members(dv).take(i as int),
        decreases es@.len() - i,
    {
        let ghost old_out = out;
        let hex = es[i].1.address().to_hex();
        let mut inner: Vec<(String, Json)> = Vec::new();
        let ghost snap0 = inner;
        let ip = (String::from_str("address"), Json::Str(hex));
        let ghost gip = ip;
        inner.push(ip);
        let ghost ginner = inner;
        let p = (es[i].0.clone(), Json::Obj(inner));
        let ghost gp = p;
        out.push(p);
        proof {
            assert(snap0.deep_view() =~= Seq::<(Seq<char>, JsonV)>::empty());
            crate::json::lemma_push_member_view(snap0, ginner, gip.0, gip.1);
            crate::json::lemma_obj_view(&ginner);
            crate::json::lemma_push_member_view(old_out, out, gp.0, gp.1);
            assert(m@[i as int] == (es@[i as int].0@, es@[i as int].1));
            assert(dv[i as int] == (m@[i as int].0, m@[i as int].1@));
            assert(ginner.deep_view() =~= seq![
                (dk_address(), JsonV::Str(seq!['0', 'x'] + bytes_to_hex(dv[i as int].1))),
            ]);
            assert(nets_to_members(dv)[i as int] == (
                dv[i as int].0,
                JsonV::Obj(
                    seq![
                        (dk_address(), JsonV::Str(seq!['0', 'x'] + bytes_to_hex(dv[i as int].1))),
                    ],
                ),
            ));
            assert(nets_to_members(dv).take(i + 1) =~= nets_to_members(dv).take(i as int).push(
                nets_to_members(dv)[i as int],
            ));
        }
        i += 1;
    }
    proof {
        assert(nets_to_members(dv).take(dv.len() as int) =~= nets_to_members(dv));
    }
    out
}

impl Contract {
    /// The artifact as a JSON document value.
    pub fn to_json(&self) -> (r: Json)
        ensures
            r.deep_view() == contract_to_jv(self@),
    {
        proof {
            lemma_dk_lits();
        }
        let mut ms: Vec<(String, Json)> = Vec::new();
        let ghost snap0 = ms;
        let pair1 = (String::from_str("name"), Json::Str(self.name.clone()));
        let ghost gp1 = pair1;
        ms.push(pair1);
        let ghost snap1 = ms;
        let abi_value = crate::abi::encode_entries_exec(&self.abi);
        let pair2 = (String::from_str("abi"), abi_value);
        let ghost gp2 = pair2;
        ms.push(pair2);
        let ghost snap2 = ms;
        let pair3 = (String::from_str("bin"), Json::Str(self.bin.clone()));
        let ghost gp3 = pair3;
        ms.push(pair3);
        let ghost snap3 = ms;
        proof {
            assert(snap0.deep_view() =~= Seq::<(Seq<char>, JsonV)>::empty());
            crate::json::lemma_push_member_view(snap0, snap1, gp1.0, gp1.1);
            crate::json::lemma_push_member_view(snap1, snap2, gp2.0, gp2.1);
            crate::json::lemma_push_member_view(snap2, snap3, gp3.0, gp3.1);
        }
        match &self.gas_estimates {
            None => {},
            Some(g) => {
                let mut gms: Vec<(String, Json)> = Vec::new();
                let ghost gsnap0 = gms;
                let row1 = (String::from_str("construction"), Json::Str(g.construction.clone()));
                let ghost rv1 = row1;
                gms.push(row1);
                let ghost gsnap1 = gms;
                let row2 = (String::from_str("external"), Json::Obj(costs_to_members_exec(&g.external)));
                let ghost rv2 = row2;
                gms.push(row2);
                let ghost gsnap2 = gms;
                let row3 = (String::from_str("internal"), Json::Obj(costs_to_members_exec(&g.internal)));
                let ghost rv3 = row3;
                gms.push(row3);
                let ghost gsnap3 = gms;
                let ghost before = ms;
                let gp = (String::from_str("gas_estimates"), Json::Obj(gms));
                let ghost ggp = gp;
                ms.push(gp);
                proof {
                    assert(gsnap0.deep_view() =~= Seq::<(Seq<char>, JsonV)>::empty());
                    crate::json::lemma_push_member_view(gsnap0, gsnap1, rv1.0, rv1.1);
                    crate::json::lemma_obj_view(&rv2.1->Obj_0);
                    crate::json::lemma_push_member_view(gsnap1, gsnap2, rv2.0, rv2.1);
                    crate::json::lemma_obj_view(&rv3.1->Obj_0);
                    crate::json::lemma_push_member_view(gsnap2, gsnap3, rv3.0, rv3.1);
                    crate::json::lemma_obj_view(&gsnap3);
                    assert(gsnap3.deep_view() =~= seq![
                        (dk_construction(), JsonV::Str(g@.construction)),
                        (dk_external(), JsonV::Obj(costs_to_members(g@.external))),
                        (dk_internal(), JsonV::Obj(costs_to_members(g@.internal))),
                    ]);
                    crate::json::lemma_push_member_view(before, ms, ggp.0, ggp.1);
                }
            },
        }
        let ghost with_gas = ms;
        let nv = Json::Obj(nets_to_members_exec(&self.networks));
        let ghost gnv = nv;
        let np = (String::from_str("networks"), nv);
        let ghost gnp = np;
        ms.push(np);
        proof {
            crate::json::lemma_obj_view(&gnv->Obj_0);
            crate::json::lemma_push_member_view(with_gas, ms, gnp.0, gnp.1);
            crate::json::lemma_obj_view(&ms);
            assert(ms.deep_view() =~= contract_to_jv(self@)->Obj_0);
        }
        Json::Obj(ms)
    }

    /// The canonical single-line document text.
    pub fn serialize(&self) -> (r: String)
        ensures
            r@ == crate::json::print_jv(contract_to_jv(self@), false, 0),
    {
        let j = self.to_json();
        crate::json::json_to_string(&j, false)
    }

    /// The readable document text.
    pub fn pretty_print(&self) -> (r: String)
        ensures
            r@ == crate::json::print_jv(contract_to_jv(self@), true, 0),
    {
        let j = self.to_json();
        crate::json::json_to_string(&j, true)
    }
}

/// Decodes a cost table from JSON object members.
#[verifier::loop_isolation(false)]
fn costs_from_members_exec(ms: &Vec<(String, Json)>) -> (r: Result<StringMap<String>, SchemaError>)
    ensures
        match r {
            Ok(m) => costs_from_members(ms.deep_view()) == Ok::<
                Seq<(Seq<char>, Seq<char>)>,
                SchemaErrorV,
            >(sv_pairs(m@)),
            Err(e) => costs_from_members(ms.deep_view()) == Err::<
                Seq<(Seq<char>, Seq<char>)>,
                SchemaErrorV,
            >(e.deep_view()),
        },
{
    let ghost dv = ms.deep_view();
    let mut out: StringMap<String> = StringMap::new();
    let mut i: usize = 0;
    proof {
        assert(dv.take(0) =~= Seq::<(Seq<char>, JsonV)>::empty());
        assert(sv_pairs(out@) =~= Seq::<(Seq<char>, Seq<char>)>::empty());
    }
    while i < ms.len()
        invariant
            i <= ms@.len(),
            dv.len() == ms@.len(),
            costs_from_members(dv.take(i as int)) == Ok::<
                Seq<(Seq<char>, Seq<char>)>,
                SchemaErrorV,
            >(sv_pairs(out@)),
        decreases ms@.len() - i,
    {
        proof {
            assert(dv[i as int] == ms@[i as int].deep_view());
            assert(dv.take(i + 1).drop_last() =~= dv.take(i as int));
            assert(dv.take(i + 1)[i as int] == dv[i as int]);
        }
        match &ms[i].1 {
            Json::Str(v) => {
                let ghost prev = out@;
                let ghost gk = ms@[i as int].0;
                let ghost gv = v@;
                proof {
                    assert(dv[i as int].1 == JsonV::Str(gv));
                    assert(dv[i as int].0 == gk@);
                }
                out.insert(ms[i].0.clone(), v.clone());
                proof {
                    crate::solc::lemma_sv_insert(prev, gk@, *v);
                    assert(out@ == map_insert(prev, gk@, *v));
                    assert(costs_from_members(dv.take(i + 1)) == Ok::<
                        Seq<(Seq<char>, Seq<char>)>,
                        SchemaErrorV,
                    >(map_insert(sv_pairs(prev), gk@, gv)));
                }
            },
            _ => {
                proof {
                    assert(!(dv[i as int].1 is Str)) by {
                        assert(dv[i as int].1 == ms@[i as int].1.deep_view());
                        match ms@[i as int].1 {
                            Json::Null => {},
                            Json::Bool(_) => {},
                            Json::Num(_) => {},
                            Json::Str(_) => {
                                assert(false);
                            },
                            Json::Arr(_) => {},
                            Json::Obj(_) => {},
                        }
                    }
                    lemma_costs_err(dv, i as int);
                }
                return Err(SchemaError::UnrecognizedEntry);
            },
        }
        i += 1;
    }
    proof {
        assert(dv.take(dv.len() as int) =~= dv);
    }
    Ok(out)
}

/// A non-string member fails the whole cost decode.
pub proof fn lemma_costs_err(dv: Seq<(Seq<char>, JsonV)>, i: int)
    requires
        0 <= i < dv.len(),
        !(dv[i].1 is Str),
        costs_from_members(dv.take(i)) is Ok,
    ensures
        costs_from_members(dv) == Err::<Seq<(Seq<char>, Seq<char>)>, SchemaErrorV>(
            SchemaErrorV::UnrecognizedEntry,
        ),
    decreases dv.len(),
{
    if dv.len() - 1 == i {
        assert(dv.take(i) =~= dv.drop_last());
    } else {
        assert(dv.drop_last().take(i) =~= dv.take(i));
        assert(dv.drop_last()[i] == dv[i]);
        lemma_costs_err(dv.drop_last(), i);
    }
}

/// Decodes a network table from JSON object members.
#[verifier::loop_isolation(false)]
fn nets_from_members_exec(ms: &Vec<(String, Json)>) -> (r: Result<StringMap<Network>, SchemaError>)
    ensures
        match r {
            Ok(m) => nets_from_members(ms.deep_view()) == Ok::<
                Seq<(Seq<char>, Seq<u8>)>,
                SchemaErrorV,
            >(net_pairs(m@)),
            Err(e) => nets_from_members(ms.deep_view()) == Err::<
                Seq<(Seq<char>, Seq<u8>)>,
                SchemaErrorV,
            >(e.deep_view()),
        },
{
    let ghost dv = ms.deep_view();
    proof {
        lemma_dk_lits();
    }
    let mut out: StringMap<Network> = StringMap::new();
    let mut i: usize = 0;
    proof {
        assert(dv.take(0) =~= Seq::<(Seq<char>, JsonV)>::empty());
        assert(net_pairs(out@) =~= Seq::<(Seq<char>, Seq<u8>)>::empty());
    }
    while i < ms.len()
        invariant
            i <= ms@.len(),
            dv.len() == ms@.len(),
            nets_from_members(dv.take(i as int)) == Ok::<
                Seq<(Seq<char>, Seq<u8>)>,
                SchemaErrorV,
            >(net_pairs(out@)),
        decreases ms@.len() - i,
    {
        proof {
            assert(dv[i as int] == ms@[i as int].deep_view());
            assert(dv.take(i + 1).drop_last() =~= dv.take(i as int));
            assert(dv.take(i + 1)[i as int] == dv[i as int]);
        }
        let bad = Err(SchemaError::UnrecognizedEntry);
        match &ms[i].1 {
            Json::Obj(nm) => {
                proof {
                    crate::json::lemma_obj_view(nm);
                }
                match crate::abi::jv_get_pub(nm, "address") {
                    Some(Json::Str(hex)) => {
                        match Address::from_hex(hex.as_str()) {
                            Some(addr) => {
                                let ghost prev = out@;
                                let ghost gk = ms@[i as int].0;
                                let ghost ga = addr@;
                                out.insert(ms[i].0.clone(), Network::new(addr));
                                proof {
                                    lemma_net_insert(prev, gk@, ga);
                                }
                            },
                            None => {
                                proof {
                                    lemma_nets_err(dv, i as int);
                                }
                                return bad;
                            },
                        }
                    },
                    Some(_) => {
                        proof {
                            lemma_nets_err(dv, i as int);
                        }
                        return bad;
                    },
                    None => {
                        proof {
                            lemma_nets_err(dv, i as int);
                        }
                        return bad;
                    },
                }
            },
            _ => {
                proof {
                    lemma_nets_err(dv, i as int);
                }
                return bad;
            },
        }
        i += 1;
    }
    proof {
        assert(dv.take(dv.len() as int) =~= dv);
    }
    Ok(out)
}

/// A bad member fails the whole network decode.
pub proof fn lemma_nets_err(dv: Seq<(Seq<char>, JsonV)>, i: int)
    requires
        0 <= i < dv.len(),
        match dv[i].1 {
            JsonV::Obj(nm) => match crate::abi::jv_get(nm, dk_address()) {
                Some(JsonV::Str(hex)) => parse_address(hex) is None,
                _ => true,
            },
            _ => true,
        },
        nets_from_members(dv.take(i)) is Ok,
    ensures
        nets_from_members(dv) == Err::<Seq<(Seq<char>, Seq<u8>)>, SchemaErrorV>(
            SchemaErrorV::UnrecognizedEntry,
        ),
    decreases dv.len(),
{
    if dv.len() - 1 == i {
        assert(dv.take(i) =~= dv.drop_last());
    } else {
        assert(dv.drop_last().take(i) =~= dv.take(i));
        assert(dv.drop_last()[i] == dv[i]);
        lemma_nets_err(dv.drop_last(), i);
    }
}

/// An upsert on a network table is an upsert on its view.
pub proof fn lemma_net_insert(s: Seq<(Seq<char>, Network)>, k: Seq<char>, a: Seq<u8>)
    ensures
        forall|n: Network|
            n@ == a ==> net_pairs(#[trigger] map_insert(s, k, n)) == map_insert(
                net_pairs(s),
                k,
                a,
            ),
{
    assert forall|n: Network|
        n@ == a implies net_pairs(#[trigger] map_insert(s, k, n)) == map_insert(
        net_pairs(s),
        k,
        a,
    ) by {
        lemma_net_pairs(s);
        lemma_net_idx(s, k);
        lemma_map_key_idx(s, k);
        let t = map_insert(s, k, n);
        lemma_net_pairs(t);
        let lhs = net_pairs(t);
        let rhs = map_insert(net_pairs(s), k, a);
        assert forall|j: int| 0 <= j < lhs.len() implies lhs[j] == rhs[j] by {
            if map_key_idx(s, k) >= 0 {
                let w = map_key_idx(s, k);
                if j != w {
                    assert(t[j] == s[j]);
                } else {
                    assert(t[j] == (k, n));
                }
            } else {
                if j < s.len() {
                    assert(t[j] == s[j]);
                } else {
                    assert(t[j] == (k, n));
                }
            }
        }
        assert(lhs =~= rhs);
    }
}

impl Contract {
    /// Decodes an artifact from its document text.
    pub fn from_json(json: &str) -> (r: Result<Contract, SchemaError>)
        ensures
            match r {
                Ok(c) => contract_from_text(json@) == Ok::<ContractV, SchemaErrorV>(c@),
                Err(e) => contract_from_text(json@) == Err::<ContractV, SchemaErrorV>(
                    e.deep_view(),
                ),
            },
    {
        proof {
            lemma_dk_lits();
        }
        let j = match crate::json::parse_json_text(json) {
            None => {
                return Err(SchemaError::InvalidJson);
            },
            Some(j) => j,
        };
        let ms = match &j {
            Json::Obj(ms) => ms,
            _ => {
                return Err(SchemaError::UnrecognizedEntry);
            },
        };
        proof {
            crate::json::lemma_obj_view(ms);
        }
        let name = match crate::abi::str_field_pub(ms, "name") {
            Ok(s) => s,
            Err(e) => {
                return Err(e);
            },
        };
        if name.unicode_len() == 0 {
            return Err(SchemaError::UnrecognizedEntry);
        }
        let abi = match crate::abi::jv_get_pub(ms, "abi") {
            Some(Json::Arr(items)) => {
                proof {
                    crate::json::lemma_arr_view(items);
                }
                match crate::abi::decode_entries_pub(items) {
                    Ok(es) => es,
                    Err(e) => {
                        return Err(e);
                    },
                }
            },
            Some(_) => {
                return Err(SchemaError::UnrecognizedEntry);
            },
            None => {
                return Err(SchemaError::MissingField(String::from_str("abi")));
            },
        };
        let bin = match crate::abi::str_field_pub(ms, "bin") {
            Ok(s) => s,
            Err(e) => {
                return Err(e);
            },
        };
        let gas_estimates = match crate::abi::jv_get_pub(ms, "gas_estimates") {
            None => None,
            Some(Json::Null) => None,
            Some(g) => match gas_from_jv_exec(g) {
                Ok(gv) => Some(gv),
                Err(e) => {
                    return Err(e);
                },
            },
        };
        let networks = match crate::abi::jv_get_pub(ms, "networks") {
            Some(Json::Obj(nms)) => {
                proof {
                    crate::json::lemma_obj_view(nms);
                }
                match nets_from_members_exec(nms) {
                    Ok(m) => m,
                    Err(e) => {
                        return Err(e);
                    },
                }
            },
            Some(_) => {
                return Err(SchemaError::UnrecognizedEntry);
            },
            None => {
                return Err(SchemaError::MissingField(String::from_str("networks")));
            },
        };
        Ok(Contract { name, abi, bin, gas_estimates, networks })
    }
}

/// Decodes the gas estimates object.
fn gas_from_jv_exec(j: &Json) -> (r: Result<GasEstimates, SchemaError>)
    ensures
        match r {
            Ok(g) => gas_from_jv(j.deep_view()) == Ok::<GasV, SchemaErrorV>(g@),
            Err(e) => gas_from_jv(j.deep_view()) == Err::<GasV, SchemaErrorV>(e.deep_view()),
        },
{
    proof {
        lemma_dk_lits();
    }
    match j {
        Json::Obj(ms) => {
            proof {
                crate::json::lemma_obj_view(ms);
            }
            let construction = match crate::abi::str_field_pub(ms, "construction") {
                Ok(s) => s,
                Err(e) => {
                    return Err(e);
                },
            };
            let external = match crate::abi::jv_get_pub(ms, "external") {
                Some(Json::Obj(ems)) => {
                    proof {
                        crate::json::lemma_obj_view(ems);
                    }
                    match costs_from_members_exec(ems) {
                        Ok(m) => m,
                        Err(e) => {
                            return Err(e);
                        },
                    }
                },
                Some(_) => {
                    return Err(SchemaError::UnrecognizedEntry);
                },
                None => {
                    return Err(SchemaError::MissingField(String::from_str("external")));
                },
            };
            let internal = match crate::abi::jv_get_pub(ms, "internal") {
                Some(Json::Obj(ims)) => {
                    proof {
                        crate::json::lemma_obj_view(ims);
                    }
                    match costs_from_members_exec(ims) {
                        Ok(m) => m,
                        Err(e) => {
                            return Err(e);
                        },
                    }
                },
                Some(_) => {
                    return Err(SchemaError::UnrecognizedEntry);
                },
                None => {
                    return Err(SchemaError::MissingField(String::from_str("internal")));
                },
            };
            Ok(GasEstimates { construction, external, internal })
        },
        _ => Err(SchemaError::UnrecognizedEntry),
    }
}

/// An owned copy of a parameter.
fn clone_variable(v: &crate::abi::Variable) -> (r: crate::abi::Variable)
    ensures
        r.deep_view() == v.deep_view(),
    decreases v,
{
    proof {
        crate::abi::lemma_var_view(v);
    }
    let components = match &v.components {
        None => None,
        Some(cs) => Some(clone_variables(cs)),
    };
    let r = crate::abi::Variable { name: v.name.clone(), ty: v.ty.clone(), components };
    proof {
        crate::abi::lemma_var_view(&r);
    }
    r
}

/// An owned copy of a parameter list.
#[verifier::loop_isolation(false)]
fn clone_variables(vs: &Vec<crate::abi::Variable>) -> (r: Vec<crate::abi::Variable>)
    ensures
        r.deep_view() == vs.deep_view(),
    decreases vs,
{
    let mut out: Vec<crate::abi::Variable> = Vec::new();
    let mut i: usize = 0;
    proof {
        assert(out.deep_view() =~= vs.deep_view().take(0));
    }
    while i < vs.len()
        invariant
            i <= vs@.len(),
            out.deep_view() =~= vs.deep_view().take(i as int),
        decreases vs@.len() - i,
    {
        let ghost old_out = out;
        let c = clone_variable(&vs[i]);
        let ghost gc = c;
        out.push(c);
        proof {
            crate::abi::lemma_push_var_view(old_out, out, gc);
            assert(vs.deep_view()[i as int] == vs@[i as int].deep_view());
            assert(vs.deep_view().take(i + 1) =~= vs.deep_view().take(i as int).push(
                vs.deep_view()[i as int],
            ));
        }
        i += 1;
    }
    proof {
        assert(vs.deep_view().take(vs@.len() as int) =~= vs.deep_view());
    }
    out
}

/// An owned copy of a function entry.
pub fn clone_function(f: &Function) -> (r: Function)
    ensures
        r.deep_view() == f.deep_view(),
{
    Function {
        name: f.name.clone(),
        inputs: clone_variables(&f.inputs),
        outputs: clone_variables(&f.outputs),
        stateMutability: f.stateMutability.clone(),
        constant: f.constant,
        payable: f.payable,
    }
}

/// The name-keyed method table of an ABI prefix: later entries win.
pub open spec fn methods_upto(abi: Seq<AbiV>, i: int) -> Seq<(Seq<char>, FunctionV)>
    decreases i,
{
    if i <= 0 {
        Seq::empty()
    } else {
        match abi[i - 1] {
            AbiV::Function(f) => map_insert(methods_upto(abi, i - 1), f.name, f),
            _ => methods_upto(abi, i - 1),
        }
    }
}

/// The name-keyed method table of a whole ABI.
pub open spec fn methods_of(abi: Seq<AbiV>) -> Seq<(Seq<char>, FunctionV)> {
    methods_upto(abi, abi.len() as int)
}

/// Function values of a table, by their views.
pub open spec fn fn_pairs(s: Seq<(Seq<char>, Function)>) -> Seq<(Seq<char>, FunctionV)>
    decreases s,
{
    if s.len() == 0 {
        Seq::empty()
    } else {
        seq![(s[0].0, s[0].1.deep_view())] + fn_pairs(s.drop_first())
    }
}

pub proof fn lemma_fn_pairs(s: Seq<(Seq<char>, Function)>)
    ensures
        fn_pairs(s).len() == s.len(),
        forall|i: int|
            0 <= i < s.len() ==> #[trigger] fn_pairs(s)[i] == (s[i].0, s[i].1.deep_view()),
    decreases s.len(),
{
    if s.len() > 0 {
        lemma_fn_pairs(s.drop_first());
        assert(fn_pairs(s) == seq![(s[0].0, s[0].1.deep_view())] + fn_pairs(s.drop_first()));
        assert forall|i: int|
            0 <= i < s.len() implies #[trigger] fn_pairs(s)[i] == (
            s[i].0,
            s[i].1.deep_view(),
        ) by {
            if i > 0 {
                assert(fn_pairs(s)[i] == fn_pairs(s.drop_first())[i - 1]);
                assert(s.drop_first()[i - 1] == s[i]);
            }
        }
    }
}

/// Key positions agree between a method table and its view.
pub proof fn lemma_fn_idx(s: Seq<(Seq<char>, Function)>, k: Seq<char>)
    ensures
        map_key_idx(fn_pairs(s), k) == map_key_idx(s, k),
    decreases s.len(),
{
    lemma_fn_pairs(s);
    if s.len() > 0 {
        lemma_fn_idx(s.drop_first(), k);
        assert(fn_pairs(s) == seq![(s[0].0, s[0].1.deep_view())] + fn_pairs(s.drop_first()));
        assert(fn_pairs(s).drop_first() =~= fn_pairs(s.drop_first()));
    }
}

/// An upsert on a method table is an upsert on its view.
pub proof fn lemma_fn_insert(s: Seq<(Seq<char>, Function)>, k: Seq<char>, f: Function)
    ensures
        fn_pairs(map_insert(s, k, f)) == map_insert(fn_pairs(s), k, f.deep_view()),
{
    lemma_fn_pairs(s);
    lemma_fn_idx(s, k);
    lemma_map_key_idx(s, k);
    let t = map_insert(s, k, f);
    lemma_fn_pairs(t);
    let a = fn_pairs(t);
    let b = map_insert(fn_pairs(s), k, f.deep_view());
    assert forall|j: int| 0 <= j < a.len() implies a[j] == b[j] by {
        if map_key_idx(s, k) >= 0 {
            let w = map_key_idx(s, k);
            if j != w {
                assert(t[j] == s[j]);
            } else {
                assert(t[j] == (k, f));
            }
        } else {
            if j < s.len() {
                assert(t[j] == s[j]);
            } else {
                assert(t[j] == (k, f));
            }
        }
    }
    assert(a =~= b);
}

impl Contract {
    /// The name-keyed view of the ABI's functions. Two functions sharing a
    /// name are legitimate overloads; the later one in ABI order wins and
    /// the earlier is absent from this view.
    #[verifier::loop_isolation(false)]
    pub fn get_methods(&self) -> (r: StringMap<Function>)
        ensures
            fn_pairs(r@) == methods_of(self@.abi),
    {
        let ghost dv = self@.abi;
        let mut m: StringMap<Function> = StringMap::new();
        let mut i: usize = 0;
        proof {
            assert(fn_pairs(m@) =~= Seq::<(Seq<char>, FunctionV)>::empty());
            assert(dv.len() == self.abi@.len());
        }
        while i < self.abi.len()
            invariant
                i <= self.abi@.len(),
                dv == self@.abi,
                dv.len() == self.abi@.len(),
                fn_pairs(m@) == methods_upto(dv, i as int),
            decreases self.abi@.len() - i,
        {
            proof {
                assert(dv[i as int] == self.abi@[i as int].deep_view());
            }
            match &self.abi[i] {
                Abi::Function(f) => {
                    let ghost prev = m@;
                    let key = f.name.clone();
                    let ghost gf = f;
                    let c = clone_function(f);
                    let ghost gc = c;
                    m.insert(key, c);
                    proof {
                        lemma_fn_insert(prev, gf.name@, gc);
                        assert(dv[i as int] == AbiV::Function(gf.deep_view()));
                        assert(gc.deep_view() == gf.deep_view());
                        assert(methods_upto(dv, i + 1) == map_insert(
                            methods_upto(dv, i as int),
                            gf.deep_view().name,
                            gf.deep_view(),
                        ));
                    }
                },
                _ => {
                    proof {
                        assert(methods_upto(dv, i + 1) == methods_upto(dv, i as int)) by {
                            match self.abi@[i as int] {
                                Abi::Function(_) => {
                                    assert(false);
                                },
                                Abi::Constructor(_) => {},
                                Abi::Fallback(_) => {},
                                Abi::Event(_) => {},
                            }
                        }
                    }
                },
            }
            i += 1;
        }
        m
    }
}

/// The position of the last function entry with the given name in the
/// ABI prefix of length `i`, or a negative number.
pub open spec fn last_fn_at(abi: Seq<AbiV>, i: int, n: Seq<char>) -> int
    decreases i,
{
    if i <= 0 {
        -1
    } else if abi[i - 1] is Function && abi[i - 1]->Function_0.name == n {
        i - 1
    } else {
        last_fn_at(abi, i - 1, n)
    }
}

/// Name-keyed lookup keeps exactly the last function of each name: the
/// method table answers with the latest entry in ABI order, and with
/// nothing for a name no function entry carries.
pub proof fn lemma_methods_last_wins(abi: Seq<AbiV>, n: Seq<char>)
    ensures
        map_get(methods_of(abi), n) == (if last_fn_at(abi, abi.len() as int, n) >= 0 {
            Some(abi[last_fn_at(abi, abi.len() as int, n)]->Function_0)
        } else {
            None
        }),
{
    lemma_methods_last_wins_upto(abi, abi.len() as int, n);
}

pub proof fn lemma_methods_last_wins_upto(abi: Seq<AbiV>, i: int, n: Seq<char>)
    requires
        i <= abi.len(),
    ensures
        map_get(methods_upto(abi, i), n) == (if last_fn_at(abi, i, n) >= 0 {
            Some(abi[last_fn_at(abi, i, n)]->Function_0)
        } else {
            None
        }),
    decreases i,
{
    if i <= 0 {
        lemma_map_key_idx(methods_upto(abi, i), n);
    } else {
        lemma_methods_last_wins_upto(abi, i - 1, n);
        match abi[i - 1] {
            AbiV::Function(f) => {
                if f.name == n {
                    lemma_map_get_insert(methods_upto(abi, i - 1), f.name, f);
                } else {
                    lemma_map_get_insert_other(methods_upto(abi, i - 1), f.name, f, n);
                }
            },
            _ => {},
        }
    }
}

/// Lexicographic order on key text, by character code.
pub open spec fn lex_le(a: Seq<char>, b: Seq<char>) -> bool
    decreases a.len(),
{
    if a.len() == 0 {
        true
    } else if b.len() == 0 {
        false
    } else if (a[0] as u32) < (b[0] as u32) {
        true
    } else if a[0] == b[0] {
        lex_le(a.drop_first(), b.drop_first())
    } else {
        false
    }
}

/// Inserts a key into an ordered key list, before the first key it does
/// not follow.
pub open spec fn ins_sorted(x: Seq<char>, s: Seq<Seq<char>>) -> Seq<Seq<char>>
    decreases s.len(),
{
    if s.len() == 0 {
        seq![x]
    } else if lex_le(x, s[0]) {
        seq![x] + s
    } else {
        seq![s[0]] + ins_sorted(x, s.drop_first())
    }
}

/// The keys in lexicographic order.
pub open spec fn sort_keys(s: Seq<Seq<char>>) -> Seq<Seq<char>>
    decreases s.len(),
{
    if s.len() == 0 {
        Seq::empty()
    } else {
        ins_sorted(s[0], sort_keys(s.drop_first()))
    }
}

/// Where an insertion lands: before the first key that follows it.
pub proof fn lemma_ins_at(x: Seq<char>, s: Seq<Seq<char>>, p: int)
    requires
        0 <= p <= s.len(),
        forall|j: int| 0 <= j < p ==> !lex_le(x, #[trigger] s[j]),
        p < s.len() ==> lex_le(x, s[p]),
    ensures
        ins_sorted(x, s) == s.insert(p, x),
    decreases s.len(),
{
    if s.len() == 0 {
        assert(ins_sorted(x, s) =~= s.insert(0, x));
    } else if lex_le(x, s[0]) {
        assert(p == 0);
        assert(seq![x] + s =~= s.insert(0, x));
    } else {
        assert(p >= 1);
        assert forall|j: int| 0 <= j < p - 1 implies !lex_le(x, #[trigger] s.drop_first()[j]) by {
            assert(s.drop_first()[j] == s[j + 1]);
        }
        if p - 1 < s.drop_first().len() {
            assert(s.drop_first()[p - 1] == s[p]);
        }
        lemma_ins_at(x, s.drop_first(), p - 1);
        assert(seq![s[0]] + s.drop_first().insert(p - 1, x) =~= s.insert(p, x));
    }
}

/// The keys of a table, in order.
pub open spec fn keys_of(s: Seq<(Seq<char>, Seq<char>)>) -> Seq<Seq<char>>
    decreases s,
{
    if s.len() == 0 {
        Seq::empty()
    } else {
        seq![s[0].0] + keys_of(s.drop_first())
    }
}

pub proof fn lemma_keys_of(s: Seq<(Seq<char>, Seq<char>)>)
    ensures
        keys_of(s).len() == s.len(),
        forall|i: int| 0 <= i < s.len() ==> #[trigger] keys_of(s)[i] == s[i].0,
    decreases s.len(),
{
    if s.len() > 0 {
        lemma_keys_of(s.drop_first());
        assert(keys_of(s) == seq![s[0].0] + keys_of(s.drop_first()));
        assert forall|i: int| 0 <= i < s.len() implies #[trigger] keys_of(s)[i] == s[i].0 by {
            if i > 0 {
                assert(keys_of(s)[i] == keys_of(s.drop_first())[i - 1]);
                assert(s.drop_first()[i - 1] == s[i]);
            }
        }
    }
}

/// The widest key length seen so far, over a key list.
pub open spec fn width_of(keys: Seq<Seq<char>>, acc: nat) -> nat
    decreases keys.len(),
{
    if keys.len() == 0 {
        acc
    } else if keys[0].len() > acc {
        width_of(keys.drop_first(), keys[0].len())
    } else {
        width_of(keys.drop_first(), acc)
    }
}

/// The report's key column width: the longest cost key, or the word
/// `construction` when every key is shorter.
pub open spec fn report_width(g: GasV) -> nat {
    width_of(keys_of(g.external) + keys_of(g.internal), dk_construction().len())
}

/// Right-aligns a key at the column width.
pub open spec fn pad_to(w: nat, k: Seq<char>) -> Seq<char> {
    if k.len() <= w {
        crate::json::spaces((w - k.len()) as nat)
    } else {
        Seq::empty()
    }
}

/// The value under a key, or empty text.
pub open spec fn val_or_empty(s: Seq<(Seq<char>, Seq<char>)>, k: Seq<char>) -> Seq<char> {
    match map_get(s, k) {
        Some(v) => v,
        None => Seq::empty(),
    }
}

/// The cost rows for the given keys, one line each.
pub open spec fn report_rows(
    s: Seq<(Seq<char>, Seq<char>)>,
    keys: Seq<Seq<char>>,
    w: nat,
) -> Seq<char>
    decreases keys.len(),
{
    if keys.len() == 0 {
        Seq::empty()
    } else {
        seq!['\n'] + pad_to(w, keys[0]) + keys[0] + seq![':', ' '] + val_or_empty(s, keys[0])
            + report_rows(s, keys.drop_first(), w)
    }
}

/// One labelled block of the report: nothing when the table is empty.
pub open spec fn report_block(
    s: Seq<(Seq<char>, Seq<char>)>,
    label: Seq<char>,
    w: nat,
) -> Seq<char> {
    if s.len() == 0 {
        Seq::empty()
    } else {
        seq!['\n'] + pad_to(w, label) + label + seq![':'] + report_rows(s, sort_keys(keys_of(s)), w)
    }
}

/// The gas report: a construction row, then the non-empty blocks, every
/// key right-aligned on one column.
pub open spec fn report_of(g: GasV) -> Seq<char> {
    let w = report_width(g);
    pad_to(w, dk_construction()) + dk_construction() + seq![':', ' '] + g.construction
        + report_block(g.external, dk_external(), w) + report_block(g.internal, dk_internal(), w)
}

/// A gas section with no internal rows reports no internal block: the
/// report is exactly the construction row and the external block.
pub proof fn lemma_report_omits_empty_internal(g: GasV)
    requires
        g.internal.len() == 0,
    ensures
        report_of(g) == pad_to(report_width(g), dk_construction()) + dk_construction() + seq![
            ':',
            ' ',
        ] + g.construction + report_block(g.external, dk_external(), report_width(g)),
{
    let w = report_width(g);
    assert(report_block(g.internal, dk_internal(), w) =~= Seq::<char>::empty());
    assert(pad_to(w, dk_construction()) + dk_construction() + seq![':', ' '] + g.construction
        + report_block(g.external, dk_external(), w) + Seq::<char>::empty() =~= pad_to(
        w,
        dk_construction(),
    ) + dk_construction() + seq![':', ' '] + g.construction + report_block(
        g.external,
        dk_external(),
        w,
    ));
}

/// Lexicographic comparison of two key texts.
#[verifier::loop_isolation(false)]
fn lex_le_exec(a: &[char], b: &[char]) -> (r: bool)
    ensures
        r == lex_le(a@, b@),
{
    let mut i: usize = 0;
    proof {
        assert(a@.skip(0) =~= a@);
        assert(b@.skip(0) =~= b@);
    }
    while i < a.len() && i < b.len() && a[i] == b[i]
        invariant
            i <= a@.len(),
            i <= b@.len(),
            lex_le(a@, b@) == lex_le(a@.skip(i as int), b@.skip(i as int)),
        decreases a@.len() - i,
    {
        proof {
            assert(a@.skip(i as int)[0] == a@[i as int]);
            assert(b@.skip(i as int)[0] == b@[i as int]);
            assert(a@.skip(i as int).drop_first() =~= a@.skip(i as int + 1));
            assert(b@.skip(i as int).drop_first() =~= b@.skip(i as int + 1));
        }
        i += 1;
    }
    proof {
        if i < a@.len() {
            assert(a@.skip(i as int)[0] == a@[i as int]);
        }
        if i < b@.len() {
            assert(b@.skip(i as int)[0] == b@[i as int]);
        }
    }
    if i >= a.len() {
        true
    } else if i >= b.len() {
        false
    } else {
        (a[i] as u32) < (b[i] as u32)
    }
}

/// Pushing a key pushes its view.
pub proof fn lemma_push_key_view(a: Vec<String>, b: Vec<String>, x: String)
    requires
        b@ == a@.push(x),
    ensures
        b.deep_view() == a.deep_view().push(x@),
{
    let l = b.deep_view();
    let r = a.deep_view().push(x@);
    assert forall|k: int| 0 <= k < l.len() implies l[k] == r[k] by {
        assert(l[k] == b@[k].deep_view());
        if k < a@.len() {
            assert(b@[k] == a@[k]);
            assert(r[k] == a@[k].deep_view());
        } else {
            assert(b@[k] == x);
        }
    }
    assert(l =~= r);
}

/// The table's keys, sorted lexicographically.
#[verifier::loop_isolation(false)]
fn sorted_keys(m: &StringMap<String>) -> (r: Vec<String>)
    ensures
        r.deep_view() == sort_keys(keys_of(sv_pairs(m@))),
{
    let es = m.entries();
    let ghost ks = keys_of(sv_pairs(m@));
    proof {
        lemma_smap_view(es@);
        lemma_sv_pairs(m@);
        lemma_keys_of(sv_pairs(m@));
        assert(ks.len() == es@.len());
    }
    let mut out: Vec<String> = Vec::new();
    let mut i: usize = es.len();
    proof {
        assert(ks.skip(es@.len() as int) =~= Seq::<Seq<char>>::empty());
        assert(out.deep_view() =~= sort_keys(ks.skip(es@.len() as int)));
    }
    while i > 0
        invariant
            i <= es@.len(),
            ks.len() == es@.len(),
            out.deep_view() == sort_keys(ks.skip(i as int)),
        decreases i,
    {
        i -= 1;
        let key = es[i].0.clone();
        proof {
            assert(ks[i as int] == sv_pairs(m@)[i as int].0);
            assert(sv_pairs(m@)[i as int] == (m@[i as int].0, m@[i as int].1@));
            assert(m@[i as int] == (es@[i as int].0@, es@[i as int].1));
            assert(key@ == ks[i as int]);
            assert(ks.skip(i as int)[0] == ks[i as int]);
            assert(ks.skip(i as int).drop_first() =~= ks.skip(i as int + 1));
        }
        // find the insertion position
        let mut p: usize = 0;
        let kc = crate::text::str_to_chars(key.as_str());
        while p < out.len() && !lex_le_exec(kc.as_slice(), crate::text::str_to_chars(
            out[p].as_str(),
        ).as_slice())
            invariant
                p <= out@.len(),
                forall|j: int|
                    0 <= j < p ==> !lex_le(key@, #[trigger] out.deep_view()[j]),
                kc@ == key@,
            decreases out@.len() - p,
        {
            proof {
                assert(out.deep_view()[p as int] == out@[p as int].deep_view());
            }
            p += 1;
        }
        proof {
            if p < out@.len() {
                assert(out.deep_view()[p as int] == out@[p as int].deep_view());
            }
            lemma_ins_at(key@, out.deep_view(), p as int);
        }
        let ghost before = out;
        let ghost gkey = key;
        out.insert(p, key);
        proof {
            let l = out.deep_view();
            let r = before.deep_view().insert(p as int, gkey@);
            assert forall|k: int| 0 <= k < l.len() implies l[k] == r[k] by {
                assert(l[k] == out@[k].deep_view());
                if k < p {
                    assert(out@[k] == before@[k]);
                    assert(before.deep_view()[k] == before@[k].deep_view());
                } else if k == p {
                    assert(out@[k] == gkey);
                } else {
                    assert(out@[k] == before@[k - 1]);
                    assert(before.deep_view()[k - 1] == before@[k - 1].deep_view());
                }
            }
            assert(l =~= r);
        }
    }
    proof {
        assert(ks.skip(0) =~= ks);
    }
    out
}

/// Appends `n` spaces.
fn append_spaces(n: usize, out: &mut Vec<char>)
    ensures
        final(out)@ == old(out)@ + crate::json::spaces(n as nat),
{
    let ghost base = out@;
    let mut k: usize = 0;
    while k < n
        invariant
            k <= n,
            out@ == base + crate::json::spaces(k as nat),
        decreases n - k,
    {
        out.push(' ');
        k += 1;
    }
}

/// Appends the characters of a string.
fn append_str(s: &str, out: &mut Vec<char>)
    ensures
        final(out)@ == old(out)@ + s@,
{
    let cs = crate::text::str_to_chars(s);
    let ghost base = out@;
    let mut i: usize = 0;
    while i < cs.len()
        invariant
            i <= cs@.len(),
            cs@ == s@,
            out@ == base + s@.take(i as int),
        decreases cs@.len() - i,
    {
        out.push(cs[i]);
        proof {
            assert(s@.take(i + 1) =~= s@.take(i as int).push(s@[i as int]));
        }
        i += 1;
    }
    proof {
        assert(s@.take(s@.len() as int) =~= s@);
    }
}

/// Appends the right-aligned key column padding.
fn append_pad(w: usize, klen: usize, out: &mut Vec<char>, Ghost(k): Ghost<Seq<char>>)
    requires
        klen == k.len(),
    ensures
        final(out)@ == old(out)@ + pad_to(w as nat, k),
{
    if klen <= w {
        append_spaces(w - klen, out);
    } else {
        proof {
            assert(old(out)@ + pad_to(w as nat, k) =~= old(out)@);
        }
    }
}

/// Appends the cost rows for the given keys.
#[verifier::loop_isolation(false)]
fn append_rows(m: &StringMap<String>, keys: &Vec<String>, w: usize, out: &mut Vec<char>)
    ensures
        final(out)@ == old(out)@ + report_rows(sv_pairs(m@), keys.deep_view(), w as nat),
{
    let ghost sv = sv_pairs(m@);
    let ghost kdv = keys.deep_view();
    let ghost base = out@;
    let mut i: usize = 0;
    proof {
        assert(kdv.skip(0) =~= kdv);
        assert(base + Seq::<char>::empty() =~= base);
    }
    while i < keys.len()
        invariant
            i <= keys@.len(),
            kdv.len() == keys@.len(),
            out@ + report_rows(sv, kdv.skip(i as int), w as nat) == base + report_rows(
                sv,
                kdv,
                w as nat,
            ),
        decreases keys@.len() - i,
    {
        proof {
            assert(kdv[i as int] == keys@[i as int].deep_view());
            assert(kdv.skip(i as int)[0] == kdv[i as int]);
            assert(kdv.skip(i as int).drop_first() =~= kdv.skip(i as int + 1));
        }
        let ghost before = out@;
        out.push('\n');
        let key = &keys[i];
        append_pad(w, key.unicode_len(), out, Ghost(key@));
        append_str(key.as_str(), out);
        out.push(':');
        out.push(' ');
        proof {
            crate::solc::lemma_sv_idx(m@, key@);
            lemma_sv_pairs(m@);
            lemma_map_key_idx(m@, key@);
        }
        match m.get(key.as_str()) {
            Some(v) => {
                append_str(v.as_str(), out);
                proof {
                    assert(val_or_empty(sv, key@) == v@);
                }
            },
            None => {
                proof {
                    assert(val_or_empty(sv, key@) =~= Seq::<char>::empty());
                }
            },
        }
        proof {
            let row = seq!['\n'] + pad_to(w as nat, kdv[i as int]) + kdv[i as int] + seq![
                ':',
                ' ',
            ] + val_or_empty(sv, kdv[i as int]);
            assert(out@ =~= before + row);
            assert(report_rows(sv, kdv.skip(i as int), w as nat) == row + report_rows(
                sv,
                kdv.skip(i as int + 1),
                w as nat,
            ));
            assert(out@ + report_rows(sv, kdv.skip(i as int + 1), w as nat) =~= before
                + report_rows(sv, kdv.skip(i as int), w as nat));
        }
        i += 1;
    }
    proof {
        assert(report_rows(sv, kdv.skip(kdv.len() as int), w as nat) =~= Seq::<char>::empty());
        assert(out@ + Seq::<char>::empty() =~= out@);
    }
}

/// The widest key of a table, folded into the running width.
#[verifier::loop_isolation(false)]
fn fold_width(m: &StringMap<String>, acc: usize) -> (r: usize)
    ensures
        r as nat == width_of(keys_of(sv_pairs(m@)), acc as nat),
{
    let es = m.entries();
    let ghost ks = keys_of(sv_pairs(m@));
    proof {
        lemma_smap_view(es@);
        lemma_sv_pairs(m@);
        lemma_keys_of(sv_pairs(m@));
        assert(ks.skip(0) =~= ks);
    }
    let mut w = acc;
    let mut i: usize = 0;
    while i < es.len()
        invariant
            i <= es@.len(),
            ks.len() == es@.len(),
            width_of(ks, acc as nat) == width_of(ks.skip(i as int), w as nat),
        decreases es@.len() - i,
    {
        proof {
            assert(ks[i as int] == sv_pairs(m@)[i as int].0);
            assert(sv_pairs(m@)[i as int] == (m@[i as int].0, m@[i as int].1@));
            assert(m@[i as int] == (es@[i as int].0@, es@[i as int].1));
            assert(ks.skip(i as int)[0] == ks[i as int]);
            assert(ks.skip(i as int).drop_first() =~= ks.skip(i as int + 1));
        }
        let kl = es[i].0.unicode_len();
        if kl > w {
            w = kl;
        }
        i += 1;
    }
    w
}

impl Contract {
    /// The human-readable gas report: empty when the artifact carries no
    /// gas estimates; otherwise the construction row and the non-empty
    /// blocks, each block's rows sorted by method name, every key
    /// right-aligned on one column.
    pub fn gas_estimates_to_string(&self) -> (r: String)
        ensures
            r@ == match self@.gas_estimates {
                None => Seq::<char>::empty(),
                Some(g) => report_of(g),
            },
    {
        proof {
            lemma_dk_lits();
        }
        let g = match &self.gas_estimates {
            None => {
                return String::new();
            },
            Some(g) => g,
        };
        let ghost gv = g@;
        let w0 = fold_width(&g.external, 12);
        let w = fold_width(&g.internal, w0);
        proof {
            lemma_width_concat(keys_of(gv.external), keys_of(gv.internal), 12);
            assert(w as nat == report_width(gv));
        }
        let mut out: Vec<char> = Vec::new();
        append_pad(w, 12, &mut out, Ghost(dk_construction()));
        append_str("construction", &mut out);
        out.push(':');
        out.push(' ');
        append_str(g.construction.as_str(), &mut out);
        let ghost head = out@;
        proof {
            assert(head =~= pad_to(w as nat, dk_construction()) + dk_construction() + seq![
                ':',
                ' ',
            ] + gv.construction);
        }
        if g.external.len() > 0 {
            let ghost before = out@;
            out.push('\n');
            append_pad(w, 8, &mut out, Ghost(dk_external()));
            append_str("external", &mut out);
            out.push(':');
            let keys = sorted_keys(&g.external);
            append_rows(&g.external, &keys, w, &mut out);
            proof {
                assert(out@ =~= before + (seq!['\n'] + pad_to(w as nat, dk_external())
                    + dk_external() + seq![':'] + report_rows(
                    gv.external,
                    sort_keys(keys_of(gv.external)),
                    w as nat,
                )));
                assert(out@ =~= before + report_block(gv.external, dk_external(), w as nat));
            }
        } else {
            proof {
                assert(report_block(gv.external, dk_external(), w as nat)
                    =~= Seq::<char>::empty());
                assert(out@ + report_block(gv.external, dk_external(), w as nat) =~= out@);
            }
        }
        if g.internal.len() > 0 {
            let ghost before = out@;
            out.push('\n');
            append_pad(w, 8, &mut out, Ghost(dk_internal()));
            append_str("internal", &mut out);
            out.push(':');
            let keys = sorted_keys(&g.internal);
            append_rows(&g.internal, &keys, w, &mut out);
            proof {
                assert(out@ =~= before + (seq!['\n'] + pad_to(w as nat, dk_internal())
                    + dk_internal() + seq![':'] + report_rows(
                    gv.internal,
                    sort_keys(keys_of(gv.internal)),
                    w as nat,
                )));
                assert(out@ =~= before + report_block(gv.internal, dk_internal(), w as nat));
            }
        } else {
            proof {
                assert(report_block(gv.internal, dk_internal(), w as nat)
                    =~= Seq::<char>::empty());
                assert(out@ + report_block(gv.internal, dk_internal(), w as nat) =~= out@);
            }
        }
        proof {
            assert(out@ =~= report_of(gv));
        }
        crate::text::chars_to_string(out.as_slice())
    }
}

/// Folding one key list after another folds their concatenation.
pub proof fn lemma_width_concat(a: Seq<Seq<char>>, b: Seq<Seq<char>>, acc: nat)
    ensures
        width_of(a + b, acc) == width_of(b, width_of(a, acc)),
    decreases a.len(),
{
    if a.len() == 0 {
        assert(a + b =~= b);
    } else {
        assert((a + b)[0] == a[0]);
        assert((a + b).drop_first() =~= a.drop_first() + b);
        if a[0].len() > acc {
            lemma_width_concat(a.drop_first(), b, a[0].len());
        } else {
            lemma_width_concat(a.drop_first(), b, acc);
        }
    }
}

} // verus!

