//! The 64-bit ROM of a device: its bytes, its text form and its checksum.

use vstd::prelude::*;
use vstd::std_specs::iter::IteratorSpec;
use vstd::string::StringExecFns;
use crate::command::{Command, OpCode};
use crate::crc::{compute_partial_crc8, crc8, lemma_crc8_concat};
use crate::driver::Driver;
use crate::iowire::{DelayUs, IoWire};
use crate::result::Error;
use crate::search::{Cursor, DeviceSearch, SearchState};
use crate::trace::{read_bytes_script, write_bytes_script, WireOp};
use crate::tree::{devices_left, lemma_search_descends, settled};

verus! {

/// Why a text is not an address.
#[derive(Debug)]
pub enum AddressError {
    /// The text ends before sixteen digits were read.
    NotEnough,
    /// A pair of characters is not two hexadecimal digits.
    Invalid,
}

/// The 64-bit ROM of a device, in the order in which it travels on the
/// wire: family code, 48-bit serial number, CRC. The type does not ask
/// that the CRC fits.
#[derive(Debug, Clone, Copy, PartialOrd)]
pub struct Address {
    /// The eight bytes.
    pub raw: [u8; 8],
}

impl View for Address {
    type V = Seq<u8>;

    open spec fn view(&self) -> Seq<u8> {
        self.raw@
    }
}

/// The characters that Unicode gives the property `White_Space`.
pub open spec fn is_white_space(c: char) -> bool {
    let n = c as u32;
    ||| 0x09 <= n <= 0x0D
    ||| n == 0x20
    ||| n == 0x85
    ||| n == 0xA0
    ||| n == 0x1680
    ||| 0x2000 <= n <= 0x200A
    ||| n == 0x2028
    ||| n == 0x2029
    ||| n == 0x202F
    ||| n == 0x205F
    ||| n == 0x3000
}

/// `char::is_whitespace` of the standard library tells whether a character
/// has the Unicode property `White_Space`; the contract lists the code
/// points that have it.
pub assume_specification[ char::is_whitespace ](c: char) -> (r: bool)
    ensures
        r == is_white_space(c),
;

/// What may stand between the digits of an address: white space and `:`.
pub open spec fn is_separator(c: char) -> bool {
    c == ':' || is_white_space(c)
}

/// `0`-`9`, `a`-`f` and `A`-`F`.
pub open spec fn is_hex_digit(c: char) -> bool {
    ||| '0' <= c <= '9'
    ||| 'a' <= c <= 'f'
    ||| 'A' <= c <= 'F'
}

/// The value of a hexadecimal digit, 0 for any other character.
pub open spec fn hex_value(c: char) -> int {
    if '0' <= c <= '9' {
        c as u32 - '0' as u32
    } else if 'a' <= c <= 'f' {
        c as u32 - 'a' as u32 + 10
    } else if 'A' <= c <= 'F' {
        c as u32 - 'A' as u32 + 10
    } else {
        0
    }
}

/// The lower-case digit for a value below 16.
pub open spec fn hex_char(n: int) -> char {
    if n < 10 {
        ('0' as u32 + n) as char
    } else {
        ('a' as u32 + n - 10) as char
    }
}

/// The text without its separators.
pub open spec fn digits_of(s: Seq<char>) -> Seq<char>
    decreases s.len(),
{
    if s.len() == 0 {
        Seq::empty()
    } else if is_separator(s.last()) {
        digits_of(s.drop_last())
    } else {
        digits_of(s.drop_last()).push(s.last())
    }
}

/// The byte that two digits stand for, the high one first.
pub open spec fn byte_of_digits(high: char, low: char) -> u8 {
    (hex_value(high) * 16 + hex_value(low)) as u8
}

/// What a text means as an address.
///
/// Separators are dropped and what is left is read two characters at a
/// time. There must be eight pairs of hexadecimal digits and nothing
/// more. A pair among the first eight that is there but is no pair of
/// digits makes the text `Invalid`; otherwise a text that ends early is
/// `NotEnough`, and one that goes on after the sixteenth digit is
/// `Invalid`.
pub open spec fn parsed(s: Seq<char>) -> Result<Seq<u8>, AddressError> {
    let d = digits_of(s);
    let paired = if d.len() >= 16 {
        16
    } else {
        d.len() - d.len() % 2
    };
    if exists|j: int| 0 <= j < paired && !is_hex_digit(#[trigger] d[j]) {
        Err(AddressError::Invalid)
    } else if d.len() < 16 {
        Err(AddressError::NotEnough)
    } else if d.len() > 16 {
        Err(AddressError::Invalid)
    } else {
        Ok(Seq::new(8, |i: int| byte_of_digits(d[2 * i], d[2 * i + 1])))
    }
}

/// The canonical text of some bytes: two lower-case digits for each, with
/// `:` between one byte and the next.
pub open spec fn text_of(bytes: Seq<u8>) -> Seq<char>
    decreases bytes.len(),
{
    if bytes.len() == 0 {
        Seq::empty()
    } else {
        let b = bytes.last();
        let head = text_of(bytes.drop_last());
        let sep = if bytes.len() == 1 {
            head
        } else {
            head.push(':')
        };
        sep.push(hex_char(b as int / 16)).push(hex_char(b as int % 16))
    }
}

/// The value of a hexadecimal digit.
pub fn hex_to_u8(c: char) -> (r: Option<u8>)
    ensures
        r == if is_hex_digit(c) {
            Some(hex_value(c) as u8)
        } else {
            None
        },
{
    let n: u32 = c as u32;
    if '0' <= c && c <= '9' {
        Some((n - '0' as u32) as u8)
    } else if 'a' <= c && c <= 'f' {
        Some((n - 'a' as u32 + 10) as u8)
    } else if 'A' <= c && c <= 'F' {
        Some((n - 'A' as u32 + 10) as u8)
    } else {
        None
    }
}

/// One lower-case hexadecimal digit as a text.
fn hex_str(n: u8) -> (r: &'static str)
    requires
        n < 16,
    ensures
        r@ == seq![hex_char(n as int)],
{
    proof {
        reveal_strlit("0");
        reveal_strlit("1");
        reveal_strlit("2");
        reveal_strlit("3");
        reveal_strlit("4");
        reveal_strlit("5");
        reveal_strlit("6");
        reveal_strlit("7");
        reveal_strlit("8");
        reveal_strlit("9");
        reveal_strlit("a");
        reveal_strlit("b");
        reveal_strlit("c");
        reveal_strlit("d");
        reveal_strlit("e");
        reveal_strlit("f");
    }
    let r = match n {
        0 => "0",
        1 => "1",
        2 => "2",
        3 => "3",
        4 => "4",
        5 => "5",
        6 => "6",
        7 => "7",
        8 => "8",
        9 => "9",
        10 => "a",
        11 => "b",
        12 => "c",
        13 => "d",
        14 => "e",
        _ => "f",
    };
    assert(r@ =~= seq![hex_char(n as int)]);
    r
}

impl PartialEq for Address {
    fn eq(&self, other: &Self) -> (r: bool) {
        let mut i: usize = 0;
        while i < 8
            invariant
                i <= 8,
                forall|j: int| 0 <= j < i ==> self.raw@[j] == other.raw@[j],
            decreases 8 - i,
        {
            if self.raw[i] != other.raw[i] {
                return false;
            }
            i += 1;
        }
        proof {
            assert(self.raw@ =~= other.raw@);
        }
        true
    }
}

impl vstd::std_specs::cmp::PartialEqSpecImpl for Address {
    open spec fn obeys_eq_spec() -> bool {
        true
    }

    open spec fn eq_spec(&self, other: &Self) -> bool {
        self@ == other@
    }
}

impl From<[u8; 8]> for Address {
    fn from(raw: [u8; 8]) -> (r: Self) {
        Address { raw }
    }
}

impl vstd::std_specs::convert::FromSpecImpl<[u8; 8]> for Address {
    open spec fn obeys_from_spec() -> bool {
        true
    }

    open spec fn from_spec(raw: [u8; 8]) -> Self {
        Address { raw }
    }
}

impl From<Address> for [u8; 8] {
    fn from(addr: Address) -> (r: [u8; 8]) {
        addr.raw
    }
}

impl vstd::std_specs::convert::FromSpecImpl<Address> for [u8; 8] {
    open spec fn obeys_from_spec() -> bool {
        true
    }

    open spec fn from_spec(addr: Address) -> [u8; 8] {
        addr.raw
    }
}

impl Default for Address {
    fn default() -> (r: Self)
        ensures
            r@ == Seq::new(8, |i: int| 0u8),
    {
        let r = Address { raw: [0, 0, 0, 0, 0, 0, 0, 0] };
        assert(r@ =~= Seq::new(8, |i: int| 0u8));
        r
    }
}

impl core::ops::Deref for Address {
    type Target = [u8; 8];

    fn deref(&self) -> (r: &[u8; 8])
        ensures
            r@ == self@,
    {
        &self.raw
    }
}

impl core::ops::DerefMut for Address {
    fn deref_mut(&mut self) -> (r: &mut [u8; 8])
        ensures
            r@ == old(self)@,
            final(self)@ == final(r)@,
    {
        &mut self.raw
    }
}

impl AsRef<[u8]> for Address {
    fn as_ref(&self) -> (r: &[u8])
        ensures
            r@ == self@,
    {
        self.raw.as_slice()
    }
}

impl AsMut<[u8]> for Address {
    fn as_mut(&mut self) -> (r: &mut [u8])
        ensures
            r@ == old(self)@,
            final(self)@ == final(r)@,
    {
        &mut self.raw
    }
}

/// Dropping the separators of a text that is taken apart gives the digits
/// of the first part followed by those of the second.
pub proof fn lemma_digits_of_concat(a: Seq<char>, b: Seq<char>)
    ensures
        digits_of(a + b) == digits_of(a) + digits_of(b),
    decreases b.len(),
{
    if b.len() == 0 {
        assert(a + b =~= a);
        assert(digits_of(a) + digits_of(b) =~= digits_of(a));
    } else {
        lemma_digits_of_concat(a, b.drop_last());
        assert((a + b).drop_last() =~= a + b.drop_last());
        assert((a + b).last() == b.last());
        if !is_separator(b.last()) {
            assert(digits_of(a + b) =~= digits_of(a) + digits_of(b));
        }
    }
}

proof fn lemma_digits_of_step(s: Seq<char>, k: int)
    requires
        0 <= k < s.len(),
    ensures
        digits_of(s.take(k + 1)) == if is_separator(s[k]) {
            digits_of(s.take(k))
        } else {
            digits_of(s.take(k)).push(s[k])
        },
{
    let next = s.take(k + 1);
    assert(next.drop_last() =~= s.take(k));
    assert(next.last() == s[k]);
}

proof fn lemma_digits_of_prefix(s: Seq<char>, k: int)
    requires
        0 <= k <= s.len(),
    ensures
        digits_of(s) == digits_of(s.take(k)) + digits_of(s.skip(k)),
{
    lemma_digits_of_concat(s.take(k), s.skip(k));
    assert(s.take(k) + s.skip(k) =~= s);
}

impl core::str::FromStr for Address {
    type Err = AddressError;

    /// Reads an address from exactly sixteen hexadecimal digits, in either
    /// case, with any white space and `:` between, before and after them.
    fn from_str(s: &str) -> (r: Result<Self, AddressError>)
        ensures
            match parsed(s@) {
                Ok(bytes) => r is Ok && r->Ok_0@ == bytes,
                Err(e) => r == Err::<Address, AddressError>(e),
            },
    {
        broadcast use vstd::string::group_string_axioms;
        broadcast use vstd::string::next_postcondition;

        let mut raw: [u8; 8] = [0u8; 8];
        let mut it = s.chars();
        let mut i: usize = 0;
        let mut high: Option<Option<u8>> = None;
        let ghost mut k: int = 0;
        let ghost all = digits_of(s@);
        loop
            invariant
                0 <= k <= s@.len(),
                all == digits_of(s@),
                it.remaining() == s@.skip(k),
                it.obeys_prophetic_iter_laws(),
                i < 8,
                digits_of(s@.take(k)).len() == 2 * i + if high is Some { 1int } else { 0int },
                forall|j: int| 0 <= j < 2 * i ==> is_hex_digit(#[trigger] digits_of(s@.take(k))[j]),
                forall|m: int|
                    0 <= m < i ==> #[trigger] raw@[m] == byte_of_digits(
                        digits_of(s@.take(k))[2 * m],
                        digits_of(s@.take(k))[2 * m + 1],
                    ),
                high is Some ==> {
                    let c = digits_of(s@.take(k))[2 * i];
                    high->0 == if is_hex_digit(c) {
                        Some(hex_value(c) as u8)
                    } else {
                        None
                    }
                },
            ensures
                k == s@.len(),
            decreases s@.len() - k,
        {
            let ghost seen = digits_of(s@.take(k));
            match it.next() {
                None => {
                    break ;
                },
                Some(c) => {
                    proof {
                        lemma_digits_of_step(s@, k);
                        lemma_digits_of_prefix(s@, k + 1);
                    }
                    let ghost now = digits_of(s@.take(k + 1));
                    assert(c == s@[k]);
                    if !c.is_whitespace() && c != ':' {
                        assert(now == seen.push(c));
                        assert(forall|j: int| 0 <= j < seen.len() ==> now[j] == seen[j]);
                        assert(forall|j: int| 0 <= j < now.len() ==> now[j] == all[j]);
                        match high {
                            None => {
                                high = Some(hex_to_u8(c));
                            },
                            Some(h) => {
                                match (h, hex_to_u8(c)) {
                                    (Some(h), Some(l)) => {
                                        assert((h << 4) | l == h * 16 + l) by (bit_vector)
                                            requires
                                                h < 16,
                                                l < 16,
                                        ;
                                        raw[i] = (h << 4) | l;
                                        i += 1;
                                        high = None;
                                        if i == 8 {
                                            proof {
                                                k = k + 1;
                                            }
                                            let ghost head = now;
                                            // Nothing but separators may follow.
                                            loop
                                                invariant
                                                    0 <= k <= s@.len(),
                                                    all == digits_of(s@),
                                                    it.remaining() == s@.skip(k),
                                                    it.obeys_prophetic_iter_laws(),
                                                    digits_of(s@.take(k)) == head,
                                                    head.len() == 16,
                                                    forall|j: int|
                                                        0 <= j < 16 ==> is_hex_digit(
                                                            #[trigger] head[j],
                                                        ),
                                                    forall|m: int|
                                                        0 <= m < 8 ==> #[trigger] raw@[m]
                                                            == byte_of_digits(
                                                            head[2 * m],
                                                            head[2 * m + 1],
                                                        ),
                                                ensures
                                                    k == s@.len(),
                                                decreases s@.len() - k,
                                            {
                                                match it.next() {
                                                    None => {
                                                        break ;
                                                    },
                                                    Some(c) => {
                                                        proof {
                                                            lemma_digits_of_step(s@, k);
                                                            lemma_digits_of_prefix(s@, k + 1);
                                                        }
                                                        assert(c == s@[k]);
                                                        if !c.is_whitespace() && c != ':' {
                                                            proof {
                                                                let more = digits_of(
                                                                    s@.take(k + 1),
                                                                );
                                                                assert(more == head.push(c));
                                                                assert(all.len() > 16);
                                                                assert(forall|j: int|
                                                                    0 <= j < 16 ==> all[j]
                                                                        == head[j]);
                                                            }
                                                            return Err(AddressError::Invalid);
                                                        }
                                                        proof {
                                                            k = k + 1;
                                                        }
                                                    },
                                                }
                                            }
                                            let r = Address { raw };
                                            proof {
                                                assert(s@.take(k) =~= s@);
                                                assert(r@ =~= parsed(s@)->Ok_0);
                                            }
                                            return Ok(r);
                                        }
                                    },
                                    _ => {
                                        proof {
                                            let bad = if h is None {
                                                2 * i
                                            } else {
                                                2 * i + 1
                                            };
                                            assert(!is_hex_digit(all[bad]));
                                        }
                                        return Err(AddressError::Invalid);
                                    },
                                }
                            },
                        }
                    } else {
                        assert(now == seen);
                    }
                    proof {
                        k = k + 1;
                    }
                },
            }
        }
        proof {
            assert(s@.take(k) =~= s@);
        }
        Err(AddressError::NotEnough)
    }
}

impl Address {
    /// The length of an address in bytes.
    pub const BYTES: u8 = 8;

    /// The length of an address in bits.
    pub const BITS: u8 = 64;

    /// The first byte, which names the kind of device.
    pub fn family_code(&self) -> (r: u8)
        ensures
            r == self@[0],
    {
        self.raw[0]
    }

    /// The CRC-8 of the address followed by `data`.
    pub fn compute_crc8(&self, data: &[u8]) -> (r: u8)
        ensures
            r == crc8(0, self@ + data@),
    {
        let crc = compute_partial_crc8(0u8, self.as_ref());
        proof {
            lemma_crc8_concat(0, self@, data@);
        }
        compute_partial_crc8(crc, data)
    }

    /// Checks that the CRC-8 of the address followed by `data` is `crc8`.
    pub fn ensure_correct_crc8<E>(&self, data: &[u8], crc8: u8) -> (r: Result<(), Error<E>>)
        ensures
            r == if crate::crc::crc8(0, self@ + data@) == crc8 {
                Ok::<(), Error<E>>(())
            } else {
                Err::<(), Error<E>>(Error::CrcMismatch(crate::crc::crc8(0, self@ + data@), crc8))
            },
    {
        let computed = self.compute_crc8(data);
        if computed != crc8 {
            Err(Error::CrcMismatch(computed, crc8))
        } else {
            Ok(())
        }
    }

    /// The address as text: `xx:xx:xx:xx:xx:xx:xx:xx` in lower case.
    pub fn to_string(&self) -> (r: String)
        ensures
            r@ == text_of(self@),
    {
        let mut out = String::new();
        let mut i: usize = 0;
        while i < 8
            invariant
                i <= 8,
                out@ == text_of(self@.take(i as int)),
            decreases 8 - i,
        {
            let b: u8 = self.raw[i];
            if i > 0 {
                proof {
                    reveal_strlit(":");
                }
                out.append(":");
            }
            assert(b >> 4 == b / 16 && b & 0x0F == b % 16 && b / 16 < 16) by (bit_vector);
            out.append(hex_str(b >> 4));
            out.append(hex_str(b & 0x0F));
            proof {
                let next = self@.take(i + 1);
                assert(next.drop_last() =~= self@.take(i as int));
                assert(next.last() == b);
                assert(out@ =~= text_of(next));
            }
            i += 1;
        }
        proof {
            assert(self@.take(8) =~= self@);
        }
        out
    }
}

/// The digits of the canonical text of some bytes: two for each byte.
pub open spec fn digits_for(bytes: Seq<u8>) -> Seq<char>
    decreases bytes.len(),
{
    if bytes.len() == 0 {
        Seq::empty()
    } else {
        digits_for(bytes.drop_last()).push(hex_char(bytes.last() as int / 16)).push(
            hex_char(bytes.last() as int % 16),
        )
    }
}

/// Two characters that read the same in an address: the same character,
/// or the same hexadecimal digit in different case.
pub open spec fn same_digit(x: char, y: char) -> bool {
    x == y || (is_hex_digit(x) && is_hex_digit(y) && hex_value(x) == hex_value(y))
}

/// A lower-case digit is a digit, has the value it was made for, and is
/// no separator. Nor is any other hexadecimal digit.
pub proof fn lemma_hex_char(n: int)
    requires
        0 <= n < 16,
    ensures
        is_hex_digit(hex_char(n)),
        hex_value(hex_char(n)) == n,
        !is_separator(hex_char(n)),
        is_separator(':'),
        forall|c: char| is_hex_digit(c) ==> !is_separator(c),
{
}

proof fn lemma_digits_of_push(s: Seq<char>, c: char)
    ensures
        digits_of(s.push(c)) == if is_separator(c) {
            digits_of(s)
        } else {
            digits_of(s).push(c)
        },
{
    assert(s.push(c).drop_last() =~= s);
}

proof fn lemma_text_digits(bytes: Seq<u8>)
    ensures
        digits_of(text_of(bytes)) == digits_for(bytes),
        digits_for(bytes).len() == 2 * bytes.len(),
        forall|i: int|
            0 <= i < bytes.len() ==> (#[trigger] digits_for(bytes)[2 * i]) == hex_char(
                bytes[i] as int / 16,
            ) && digits_for(bytes)[2 * i + 1] == hex_char(bytes[i] as int % 16),
    decreases bytes.len(),
{
    if bytes.len() > 0 {
        let b = bytes.last();
        let head = text_of(bytes.drop_last());
        lemma_text_digits(bytes.drop_last());
        lemma_hex_char(b as int / 16);
        lemma_hex_char(b as int % 16);
        let sep = if bytes.len() == 1 {
            head
        } else {
            head.push(':')
        };
        lemma_digits_of_push(head, ':');
        lemma_digits_of_push(sep, hex_char(b as int / 16));
        lemma_digits_of_push(sep.push(hex_char(b as int / 16)), hex_char(b as int % 16));
        let d = digits_for(bytes);
        let before = digits_for(bytes.drop_last());
        assert forall|i: int| 0 <= i < bytes.len() implies (#[trigger] d[2 * i]) == hex_char(
            bytes[i] as int / 16,
        ) && d[2 * i + 1] == hex_char(bytes[i] as int % 16) by {
            if i < bytes.len() - 1 {
                assert(d[2 * i] == before[2 * i]);
                assert(d[2 * i + 1] == before[2 * i + 1]);
                assert(bytes.drop_last()[i] == bytes[i]);
            }
        }
    }
}

/// The canonical text of an address reads back as the address.
pub proof fn lemma_text_parses_back(bytes: Seq<u8>)
    requires
        bytes.len() == 8,
    ensures
        parsed(text_of(bytes)) == Ok::<Seq<u8>, AddressError>(bytes),
{
    lemma_text_digits(bytes);
    let d = digits_of(text_of(bytes));
    assert forall|j: int| 0 <= j < 16 implies is_hex_digit(#[trigger] d[j]) by {
        let i = j / 2;
        lemma_hex_char(bytes[i] as int / 16);
        lemma_hex_char(bytes[i] as int % 16);
        assert(d[2 * i] == hex_char(bytes[i] as int / 16));
        if j % 2 == 1 {
            assert(j == 2 * i + 1);
        } else {
            assert(j == 2 * i);
        }
    }
    let back = Seq::new(8, |i: int| byte_of_digits(d[2 * i], d[2 * i + 1]));
    assert forall|i: int| 0 <= i < 8 implies back[i] == bytes[i] by {
        lemma_hex_char(bytes[i] as int / 16);
        lemma_hex_char(bytes[i] as int % 16);
        assert(d[2 * i] == hex_char(bytes[i] as int / 16));
    }
    assert(back =~= bytes);
}

/// A separator put into a text, wherever, does not change what the text
/// means as an address. So neither does one that is taken out.
pub proof fn lemma_parse_skips_separator(s: Seq<char>, at: int, c: char)
    requires
        0 <= at <= s.len(),
        is_separator(c),
    ensures
        parsed(s.insert(at, c)) == parsed(s),
{
    let head = s.take(at);
    let tail = s.skip(at);
    assert(s.insert(at, c) =~= head.push(c) + tail);
    assert(s =~= head + tail);
    lemma_digits_of_concat(head.push(c), tail);
    lemma_digits_of_concat(head, tail);
    lemma_digits_of_push(head, c);
}

proof fn lemma_digits_same(a: Seq<char>, b: Seq<char>)
    requires
        a.len() == b.len(),
        forall|i: int| 0 <= i < a.len() ==> same_digit(a[i], b[i]),
    ensures
        digits_of(a).len() == digits_of(b).len(),
        forall|j: int|
            0 <= j < digits_of(a).len() ==> same_digit(
                #[trigger] digits_of(a)[j],
                digits_of(b)[j],
            ),
    decreases a.len(),
{
    if a.len() > 0 {
        lemma_digits_same(a.drop_last(), b.drop_last());
        assert(same_digit(a.last(), b.last()));
        lemma_hex_char(0);
    }
}

/// The case of the hexadecimal digits does not change what a text means
/// as an address.
pub proof fn lemma_parse_ignores_case(a: Seq<char>, b: Seq<char>)
    requires
        a.len() == b.len(),
        forall|i: int| 0 <= i < a.len() ==> same_digit(a[i], b[i]),
    ensures
        parsed(a) == parsed(b),
{
    lemma_digits_same(a, b);
    let da = digits_of(a);
    let db = digits_of(b);
    assert forall|j: int| 0 <= j < da.len() implies is_hex_digit(#[trigger] da[j])
        == is_hex_digit(db[j]) && hex_value(da[j]) == hex_value(db[j]) by {
        assert(same_digit(da[j], db[j]));
    }
    let paired = if da.len() >= 16 {
        16
    } else {
        da.len() - da.len() % 2
    };
    if exists|j: int| 0 <= j < paired && !is_hex_digit(#[trigger] da[j]) {
        let j = choose|j: int| 0 <= j < paired && !is_hex_digit(#[trigger] da[j]);
        assert(!is_hex_digit(db[j]));
    }
    if exists|j: int| 0 <= j < paired && !is_hex_digit(#[trigger] db[j]) {
        let j = choose|j: int| 0 <= j < paired && !is_hex_digit(#[trigger] db[j]);
        assert(is_hex_digit(da[j]) == is_hex_digit(db[j]));
    }
    if parsed(a) is Ok {
        let x = parsed(a)->Ok_0;
        let y = Seq::new(8, |i: int| byte_of_digits(db[2 * i], db[2 * i + 1]));
        assert forall|i: int| 0 <= i < 8 implies x[i] == y[i] by {
            assert(is_hex_digit(da[2 * i]) == is_hex_digit(db[2 * i]));
            assert(is_hex_digit(da[2 * i + 1]) == is_hex_digit(db[2 * i + 1]));
        }
        assert(x =~= y);
    }
}

/// A text that ends before its sixteenth digit, and in which the pairs of
/// characters that are there are digits, is `NotEnough`.
pub proof fn lemma_parse_not_enough(s: Seq<char>)
    requires
        digits_of(s).len() < 16,
        forall|j: int|
            0 <= j < digits_of(s).len() - digits_of(s).len() % 2 ==> is_hex_digit(
                #[trigger] digits_of(s)[j],
            ),
    ensures
        parsed(s) == Err::<Seq<u8>, AddressError>(AddressError::NotEnough),
{
}

/// A text with more than sixteen characters other than separators is
/// `Invalid`, whatever the characters are.
pub proof fn lemma_parse_too_long(s: Seq<char>)
    requires
        digits_of(s).len() > 16,
    ensures
        parsed(s) == Err::<Seq<u8>, AddressError>(AddressError::Invalid),
{
}

/// A text in which one of the first sixteen characters other than
/// separators is no digit is `Invalid`, if the character has its partner:
/// the last of an odd number of characters is not looked at.
pub proof fn lemma_parse_invalid(s: Seq<char>, at: int)
    requires
        0 <= at < 16,
        at - at % 2 + 1 < digits_of(s).len(),
        !is_hex_digit(digits_of(s)[at]),
    ensures
        parsed(s) == Err::<Seq<u8>, AddressError>(AddressError::Invalid),
{
}

/// The cursor of a search that has not begun.
pub open spec fn fresh_cursor() -> Cursor {
    Cursor {
        rom: Seq::new(64, |i: int| false),
        forks: Seq::new(64, |i: int| false),
        state: SearchState::Initialized,
    }
}

impl Address {
    /// What the bus carries, after the reset, when the ROM `rom` of the
    /// only device is read.
    pub open spec fn single_script(rom: Seq<u8>, parasite: bool) -> Seq<WireOp> {
        write_bytes_script(seq![0x33u8], parasite) + read_bytes_script(rom)
    }

    /// Reads the ROM of the only device on the bus into `self`: after a
    /// reset `ReadRom` is sent and eight bytes are read. With more devices
    /// than one on the bus, what is read is no ROM.
    pub fn read_single<W: IoWire, D: DelayUs>(
        &mut self,
        driver: &mut Driver<W>,
        delay: &mut D,
    ) -> (r: Result<(), Error<W::Error>>)
        ensures
            final(driver).kept_time(*old(driver), old(delay).waited(), final(delay).waited()),
            final(driver).transacted(
                *old(driver),
                r,
                Self::single_script(final(self)@, old(driver).parasite()),
            ),
    {
        let cmd = [Command::ReadRom.op_code()];
        assert(cmd@ =~= seq![0x33u8]);
        driver.reset_write_read(delay, cmd.as_slice(), &mut self.raw)
    }

    /// Reads the ROM of the only device on the bus.
    pub fn get_single<W: IoWire, D: DelayUs>(driver: &mut Driver<W>, delay: &mut D) -> (r: Result<
        Self,
        Error<W::Error>,
    >)
        ensures
            final(driver).kept_time(*old(driver), old(delay).waited(), final(delay).waited()),
            exists|rom: Seq<u8>|
                rom.len() == 8 && (r is Ok ==> r->Ok_0@ == rom) && #[trigger] final(
                    driver
                ).transacted(*old(driver), r, Self::single_script(rom, old(driver).parasite())),
    {
        let mut address = Address { raw: [0, 0, 0, 0, 0, 0, 0, 0] };
        let read = address.read_single(driver, delay);
        let r = match read {
            Ok(()) => Ok(address),
            Err(e) => Err(e),
        };
        proof {
            assert(driver.transacted(
                *old(driver),
                r,
                Self::single_script(address@, old(driver).parasite()),
            ));
        }
        r
    }

    /// The calls of a search that `steps` records went from one to the
    /// next, beginning at `before` with a fresh cursor, and each of them
    /// found a device of another family than `family`.
    pub open spec fn passed_over<W: IoWire>(
        before: Driver<W>,
        steps: Seq<(Driver<W>, Cursor, Address)>,
        family: u8,
    ) -> bool {
        forall|k: int|
            0 <= k < steps.len() ==> {
                &&& (#[trigger] steps[k]).0.searched(
                    Self::reached(before, steps.take(k)).0,
                    Self::reached(before, steps.take(k)).1,
                    steps[k].1,
                    0xF0,
                    Ok::<Option<Address>, Error<W::Error>>(Some(steps[k].2)),
                )
                &&& steps[k].2@[0] != family
            }
    }

    /// The driver and the cursor after the calls that `steps` records.
    pub open spec fn reached<W: IoWire>(
        before: Driver<W>,
        steps: Seq<(Driver<W>, Cursor, Address)>,
    ) -> (Driver<W>, Cursor) {
        if steps.len() == 0 {
            (before, fresh_cursor())
        } else {
            (steps.last().0, steps.last().1)
        }
    }

    /// How the search for the first device of a family ended: a search
    /// with a fresh cursor was called again and again as long as it found
    /// devices of other families, and `r` is what the last call gave.
    pub open spec fn hunted<W: IoWire>(
        before: Driver<W>,
        after: Driver<W>,
        family: u8,
        r: Result<Option<Address>, Error<W::Error>>,
    ) -> bool {
        exists|steps: Seq<(Driver<W>, Cursor, Address)>, end: Cursor|
            {
                &&& Self::passed_over(before, steps, family)
                &&& #[trigger] after.searched(
                    Self::reached(before, steps).0,
                    Self::reached(before, steps).1,
                    end,
                    0xF0,
                    r,
                )
                &&& r is Ok && r->Ok_0 is Some ==> r->Ok_0->0@[0] == family
            }
    }

    /// A run of calls and the call that ended it make up a hunt.
    proof fn lemma_hunted<W: IoWire>(
        before: Driver<W>,
        after: Driver<W>,
        steps: Seq<(Driver<W>, Cursor, Address)>,
        end: Cursor,
        family: u8,
        r: Result<Option<Address>, Error<W::Error>>,
    )
        requires
            Self::passed_over(before, steps, family),
            after.searched(
                Self::reached(before, steps).0,
                Self::reached(before, steps).1,
                end,
                0xF0,
                r,
            ),
            r is Ok && r->Ok_0 is Some ==> r->Ok_0->0@[0] == family,
        ensures
            Self::hunted(before, after, family, r),
    {
    }

    /// Searches the bus for the first device whose family code is
    /// `family_code`. `None` if the search comes to its end without one.
    pub fn search_first<W: IoWire, D: DelayUs>(
        driver: &mut Driver<W>,
        delay: &mut D,
        family_code: u8,
    ) -> (r: Result<Option<Self>, Error<W::Error>>)
        ensures
            final(driver).kept_time(*old(driver), old(delay).waited(), final(delay).waited()),
            Self::hunted(*old(driver), *final(driver), family_code, r),
    {
        let ghost d0 = *driver;
        let ghost mut steps: Seq<(Driver<W>, Cursor, Address)> = Seq::empty();
        let mut search = DeviceSearch::new();
        proof {
            assert(search@ =~= fresh_cursor());
        }
        loop
            invariant
                driver.kept_time(*old(driver), old(delay).waited(), delay.waited()),
                d0 == *old(driver),
                settled(search@),
                Self::passed_over(d0, steps, family_code),
                Self::reached(d0, steps) == (*driver, search@),
            decreases devices_left(search@),
        {
            let ghost d1 = *driver;
            let ghost c1 = search@;
            let r = driver.search_next(&mut search, delay);
            match r {
                Ok(Some(address)) => {
                    if family_code == address.family_code() {
                        proof {
                            Self::lemma_hunted(d0, *driver, steps, search@, family_code, r);
                        }
                        return Ok(Some(address));
                    }
                    proof {
                        lemma_search_descends(d1, *driver, c1, search@, 0xF0, r);
                        let next = steps.push((*driver, search@, address));
                        assert forall|k: int| 0 <= k < next.len() implies {
                            &&& (#[trigger] next[k]).0.searched(
                                Self::reached(d0, next.take(k)).0,
                                Self::reached(d0, next.take(k)).1,
                                next[k].1,
                                0xF0,
                                Ok::<Option<Address>, Error<W::Error>>(Some(next[k].2)),
                            )
                            &&& next[k].2@[0] != family_code
                        } by {
                            assert(next.take(k) =~= steps.take(k));
                            if k < steps.len() {
                                assert(next[k] == steps[k]);
                            } else {
                                assert(steps.take(k) =~= steps);
                            }
                        }
                        steps = next;
                    }
                },
                Ok(None) => {
                    proof {
                        Self::lemma_hunted(d0, *driver, steps, search@, family_code, r);
                    }
                    return Ok(None);
                },
                Err(e) => {
                    proof {
                        Self::lemma_hunted(d0, *driver, steps, search@, family_code, r);
                    }
                    return Err(e);
                },
            }
        }
    }
}

} // verus!
