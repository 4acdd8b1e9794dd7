//! The decisions of the `homepod-sink` program: decoding the PCM that
//! `capture` writes, deriving the device id from the device's IPv4 address,
//! and picking the device to stream to among those discovered.

use vstd::prelude::*;
use vstd::string::StringExecFns;
use vstd::string::StrSliceExecFns;

verus! {

/// Channels of the PCM stream that `capture` writes.
pub const PCM_CHANNELS: u16 = 2;

/// Bytes read from the capture stream at a time: 256 frames of two 16-bit
/// samples, smaller than capture's 1024-frame quantum so that the reader wakes
/// up more often with less data per wake.
pub const PCM_READ_BYTES: usize = 1024;

/// The sample that a little-endian pair of bytes encodes (two's complement).
pub open spec fn le_i16(lo: u8, hi: u8) -> int {
    let u = lo as int + 256 * hi as int;
    if u >= 32768 {
        u - 65536
    } else {
        u
    }
}

/// Decodes raw interleaved little-endian 16-bit PCM: sample `i` is made of
/// bytes `2i` (low) and `2i + 1` (high); a trailing odd byte is ignored.
pub fn decode_pcm_le(bytes: &[u8]) -> (samples: Vec<i16>)
    ensures
        samples@.len() == bytes@.len() / 2,
        forall|i: int|
            0 <= i < samples@.len() ==> #[trigger] samples@[i] as int == le_i16(
                bytes@[2 * i],
                bytes@[2 * i + 1],
            ),
{
    let len = bytes.len();
    let n = len / 2;
    let mut samples: Vec<i16> = Vec::with_capacity(n);
    let mut i: usize = 0;
    while i < n
        invariant
            i <= n,
            n == len / 2,
            len == bytes@.len(),
            samples@.len() == i,
            forall|j: int|
                0 <= j < i ==> #[trigger] samples@[j] as int == le_i16(bytes@[2 * j], bytes@[2 * j + 1]),
        decreases n - i,
    {
        let lo = bytes[2 * i];
        let hi = bytes[2 * i + 1];
        let u: i32 = lo as i32 + 256 * (hi as i32);
        let s: i16 = if u >= 32768 {
            (u - 65536) as i16
        } else {
            u as i16
        };
        samples.push(s);
        i = i + 1;
    }
    samples
}

/// An IP address of a device, as the sink compares them.
#[derive(Clone, Copy, Debug, PartialEq, Eq, Structural)]
pub enum HostAddr {
    /// An IPv4 address, by its four octets in network order.
    V4(u8, u8, u8, u8),
    /// An IPv6 address, by its 128 bits in network order.
    V6(u128),
}

/// The upper-case hexadecimal digit of `n` (below 16).
pub open spec fn hex_digit(n: int) -> char {
    if n < 10 {
        (n + 48) as char
    } else {
        (n + 55) as char
    }
}

/// Two upper-case hexadecimal digits of a byte.
pub open spec fn hex_byte(b: u8) -> Seq<char> {
    seq![hex_digit(b as int / 16), hex_digit(b as int % 16)]
}

/// The MAC-style device id derived from an IPv4 address: its four octets in
/// upper-case hex, then `00:00`, separated by colons.
pub open spec fn ipv4_device_id(a: u8, b: u8, c: u8, d: u8) -> Seq<char> {
    hex_byte(a) + seq![':'] + hex_byte(b) + seq![':'] + hex_byte(c) + seq![':'] + hex_byte(d)
        + seq![':', '0', '0', ':', '0', '0']
}

fn hex_digit_str(n: u8) -> (s: &'static str)
    requires
        n < 16,
    ensures
        s@ == seq![hex_digit(n as int)],
{
    let digits = "0123456789ABCDEF";
    proof {
        reveal_strlit("0123456789ABCDEF");
        assert(digits@ =~= seq![
            '0', '1', '2', '3', '4', '5', '6', '7', '8', '9', 'A', 'B', 'C', 'D', 'E', 'F',
        ]);
        assert(digits.is_ascii());
        assert(digits@[n as int] == hex_digit(n as int));
    }
    let s = digits.substring_ascii(n as usize, n as usize + 1);
    assert(s@ =~= seq![hex_digit(n as int)]);
    s
}

fn push_hex_byte(out: &mut String, b: u8)
    ensures
        final(out)@ == old(out)@ + hex_byte(b),
{
    out.append(hex_digit_str(b / 16));
    out.append(hex_digit_str(b % 16));
    assert(final(out)@ =~= old(out)@ + hex_byte(b));
}

/// The device id that a device at `addr` announces: for an IPv4 address, its
/// octets in upper-case hex followed by `00:00`, colon-separated. Only IPv4
/// addresses are supported: for IPv6, `None`.
pub fn derived_device_id(addr: HostAddr) -> (r: Option<String>)
    ensures
        addr matches HostAddr::V4(a, b, c, d) ==> (r matches Some(s) && s@ == ipv4_device_id(a, b, c, d)),
        addr is V6 ==> r is None,
{
    match addr {
        HostAddr::V4(a, b, c, d) => {
            let sep = ":";
            let tail = ":00:00";
            proof {
                reveal_strlit(":");
                reveal_strlit(":00:00");
            }
            let mut s = String::new();
            push_hex_byte(&mut s, a);
            s.append(sep);
            push_hex_byte(&mut s, b);
            s.append(sep);
            push_hex_byte(&mut s, c);
            s.append(sep);
            push_hex_byte(&mut s, d);
            s.append(tail);
            assert(s@ =~= ipv4_device_id(a, b, c, d));
            Some(s)
        },
        HostAddr::V6(_) => None,
    }
}

/// A discovered device, as device selection sees it.
pub struct DeviceEntry {
    /// The name the device announces.
    pub name: String,
    /// Whether the device's id is the id derived from the requested address.
    pub id_matches: bool,
    /// The addresses the device announces.
    pub addresses: Vec<HostAddr>,
}

/// Why no device was selected.
#[derive(Clone, Copy, Debug, PartialEq, Eq, Structural)]
pub enum SelectError {
    /// An address was given and no discovered device has it (neither by its
    /// derived id nor among its addresses).
    NotFound,
    /// No address was given, and the discovered devices do not single one
    /// out: none, or more than one that the name filter (if any) leaves.
    NotUnique,
}

/// A character's code with ASCII upper case folded to lower case.
pub open spec fn folded(c: char) -> int {
    let u = c as int;
    if 65 <= u <= 90 {
        u + 32
    } else {
        u
    }
}

/// `needle` occurs in `hay` starting at position `k`, ignoring ASCII case.
pub open spec fn occurs_at(hay: Seq<char>, needle: Seq<char>, k: int) -> bool {
    &&& 0 <= k
    &&& k + needle.len() <= hay.len()
    &&& forall|j: int| 0 <= j < needle.len() ==> #[trigger] folded(hay[k + j]) == folded(needle[j])
}

/// `needle` occurs somewhere in `hay`, ignoring ASCII case.
pub open spec fn contains_ignore_ascii_case(hay: Seq<char>, needle: Seq<char>) -> bool {
    exists|k: int| occurs_at(hay, needle, k)
}

fn fold_code(c: char) -> (u: u32)
    ensures
        u as int == folded(c),
        'A' <= c <= 'Z' ==> u == c as u32 + ('a' as u32 - 'A' as u32),
        !('A' <= c <= 'Z') ==> u == c as u32,
{
    let u = c as u32;
    if 65 <= u && u <= 90 {
        u + 32
    } else {
        u
    }
}

/// Whether `needle` occurs in `hay`, ignoring ASCII case.
pub fn contains_ignore_ascii_case_str(hay: &str, needle: &str) -> (b: bool)
    ensures
        b == contains_ignore_ascii_case(hay@, needle@),
{
    let n = hay.unicode_len();
    let m = needle.unicode_len();
    if m > n {
        assert forall|k: int| !occurs_at(hay@, needle@, k) by {}
        return false;
    }
    let mut k: usize = 0;
    while k <= n - m
        invariant
            n == hay@.len(),
            m == needle@.len(),
            m <= n,
            forall|q: int| 0 <= q < k ==> !#[trigger] occurs_at(hay@, needle@, q),
        decreases n - m + 1 - k,
    {
        let mut j: usize = 0;
        let mut same = true;
        while j < m && same
            invariant
                n == hay@.len(),
                m == needle@.len(),
                k + m <= n,
                j <= m,
                same ==> forall|i: int| 0 <= i < j ==> #[trigger] folded(hay@[k + i]) == folded(needle@[i]),
                !same ==> exists|i: int| 0 <= i < m && #[trigger] folded(hay@[k + i]) != folded(needle@[i]),
            decreases (m - j) as int + if same { 1int } else { 0int },
        {
            if fold_code(hay.get_char(k + j)) != fold_code(needle.get_char(j)) {
                same = false;
            } else {
                j = j + 1;
            }
        }
        if same {
            assert(occurs_at(hay@, needle@, k as int));
            return true;
        }
        k = k + 1;
    }
    assert forall|q: int| !occurs_at(hay@, needle@, q) by {
        if 0 <= q < k {
        }
    }
    false
}

/// The device at index `i` has the requested address: its id is the one
/// derived from it, or it announces it.
pub open spec fn reaches(e: DeviceEntry, addr: HostAddr) -> bool {
    e.id_matches || e.addresses@.contains(addr)
}

/// The device's name contains `name`, ignoring ASCII case.
pub open spec fn name_matches(e: DeviceEntry, name: Seq<char>) -> bool {
    contains_ignore_ascii_case(e.name@, name)
}

/// Device `i` is the only one whose name matches.
pub open spec fn only_name_match(devices: Seq<DeviceEntry>, name: Seq<char>, i: int) -> bool {
    &&& 0 <= i < devices.len()
    &&& name_matches(devices[i], name)
    &&& forall|j: int| 0 <= j < devices.len() && j != i ==> !#[trigger] name_matches(devices[j], name)
}

fn has_address(addresses: &Vec<HostAddr>, addr: HostAddr) -> (b: bool)
    ensures
        b == addresses@.contains(addr),
{
    let mut i: usize = 0;
    while i < addresses.len()
        invariant
            i <= addresses@.len(),
            forall|j: int| 0 <= j < i ==> addresses@[j] != addr,
        decreases addresses@.len() - i,
    {
        if addresses[i] == addr {
            return true;
        }
        i = i + 1;
    }
    false
}

/// Picks the device to stream to among those discovered.
///
/// With an address: the first device whose id is the one derived from the
/// address or which announces the address, else `NotFound`. Without one: the
/// only device if exactly one was discovered; otherwise the only device whose
/// name contains `name` (ignoring ASCII case), else `NotUnique`.
pub fn select_device(devices: &[DeviceEntry], addr: Option<HostAddr>, name: Option<&str>) -> (r: Result<
    usize,
    SelectError,
>)
    ensures
        addr matches Some(a) ==> {
            &&& r matches Ok(i) ==> 0 <= i < devices@.len() && reaches(devices@[i as int], a) && forall|j: int|
                0 <= j < i ==> !#[trigger] reaches(devices@[j], a)
            &&& r is Err ==> r == Err::<usize, SelectError>(SelectError::NotFound) && forall|j: int|
                0 <= j < devices@.len() ==> !#[trigger] reaches(devices@[j], a)
        },
        addr matches Some(a) ==> {
            &&& r matches Ok(i) ==> (devices@[i as int].id_matches || devices@[i as int].addresses@.contains(a))
                && forall|j: int|
                0 <= j < i ==> !(#[trigger] devices@[j]).id_matches && !devices@[j].addresses@.contains(a)
            &&& r is Err ==> forall|j: int|
                0 <= j < devices@.len() ==> !(#[trigger] devices@[j]).id_matches && !devices@[j].addresses@.contains(a)
        },
        addr is None && devices@.len() == 1 ==> r == Ok::<usize, SelectError>(0),
        addr is None && devices@.len() != 1 ==> {
            &&& r matches Ok(i) ==> name matches Some(n) && only_name_match(devices@, n@, i as int)
            &&& r is Err ==> r == Err::<usize, SelectError>(SelectError::NotUnique) && !(name matches Some(n)
                && exists|i: int| only_name_match(devices@, n@, i))
        },
{
    match addr {
        Some(a) => {
            let mut i: usize = 0;
            while i < devices.len()
                invariant
                    i <= devices@.len(),
                    addr == Some(a),
                    forall|j: int| 0 <= j < i ==> !#[trigger] reaches(devices@[j], a),
                    forall|j: int|
                        0 <= j < i ==> !(#[trigger] devices@[j]).id_matches && !devices@[j].addresses@.contains(a),
                decreases devices@.len() - i,
            {
                if devices[i].id_matches || has_address(&devices[i].addresses, a) {
                    return Ok(i);
                }
                i = i + 1;
            }
            Err(SelectError::NotFound)
        },
        None => {
            if devices.len() == 1 {
                return Ok(0);
            }
            match name {
                None => Err(SelectError::NotUnique),
                Some(n) => {
                    let mut found: Option<usize> = None;
                    let mut other: usize = 0;
                    let mut multiple = false;
                    let mut i: usize = 0;
                    while i < devices.len()
                        invariant
                            i <= devices@.len(),
                            addr is None,
                            devices@.len() != 1,
                            name == Some(n),
                            !multiple && found is None ==> forall|j: int|
                                0 <= j < i ==> !#[trigger] name_matches(devices@[j], n@),
                            !multiple && found is Some ==> {
                                let f = found->0 as int;
                                &&& f < i
                                &&& name_matches(devices@[f], n@)
                                &&& forall|j: int|
                                    0 <= j < i && j != f ==> !#[trigger] name_matches(devices@[j], n@)
                            },
                            multiple ==> found is Some && (found->0 as int) < devices@.len() && other
                                < devices@.len() && found->0 != other && name_matches(
                                devices@[found->0 as int],
                                n@,
                            ) && name_matches(devices@[other as int], n@),
                        decreases devices@.len() - i,
                    {
                        if contains_ignore_ascii_case_str(devices[i].name.as_str(), n) {
                            match found {
                                None => {
                                    found = Some(i);
                                },
                                Some(_) => {
                                    if !multiple {
                                        other = i;
                                        multiple = true;
                                    }
                                },
                            }
                        }
                        i = i + 1;
                    }
                    if multiple {
                        assert forall|k: int| !only_name_match(devices@, n@, k) by {
                            if only_name_match(devices@, n@, k) {
                                if k == found->0 as int {
                                    assert(name_matches(devices@[other as int], n@));
                                } else {
                                    assert(name_matches(devices@[found->0 as int], n@));
                                }
                            }
                        }
                        Err(SelectError::NotUnique)
                    } else {
                        match found {
                            Some(f) => Ok(f),
                            None => {
                                assert forall|k: int| !only_name_match(devices@, n@, k) by {
                                    if 0 <= k < devices@.len() {
                                        assert(!name_matches(devices@[k], n@));
                                    }
                                }
                                Err(SelectError::NotUnique)
                            },
                        }
                    }
                },
            }
        },
    }
}

/// A device reaches an address exactly when its id is the one derived from
/// the address or the address is anywhere among those it announces.
pub proof fn lemma_reaches(e: DeviceEntry, a: HostAddr)
    ensures
        e.id_matches ==> reaches(e, a),
        e.addresses@.contains(a) ==> reaches(e, a),
        reaches(e, a) ==> e.id_matches || exists|i: int| 0 <= i < e.addresses@.len() && e.addresses@[i] == a,
{
}

/// ASCII case folding maps every upper-case letter to its lower-case letter
/// and leaves every other character as it is, so a letter and its other case
/// fold alike.
pub proof fn lemma_folded_ascii_case(c: char)
    ensures
        'A' <= c <= 'Z' ==> folded(c) == c as int + ('a' as int - 'A' as int),
        !('A' <= c <= 'Z') ==> folded(c) == c as int,
        'A' <= c <= 'Z' ==> folded(c) == folded(((c as int) + 32) as char),
        'a' <= c <= 'z' ==> folded(c) == c as int,
{
}

/// A name matches itself with any of its ASCII letters changed to the other
/// case: a needle equal to a part of the hay up to ASCII case is found.
pub proof fn lemma_found_ignoring_case(hay: Seq<char>, needle: Seq<char>, k: int)
    requires
        0 <= k,
        k + needle.len() <= hay.len(),
        forall|j: int|
            #![trigger needle[j]]
            0 <= j < needle.len() ==> hay[k + j] == needle[j] || ('A' <= hay[k + j] <= 'Z' && needle[j] as int
                == hay[k + j] as int + 32) || ('A' <= needle[j] <= 'Z' && hay[k + j] as int == needle[j] as int
                + 32),
    ensures
        contains_ignore_ascii_case(hay, needle),
{
    assert forall|j: int| 0 <= j < needle.len() implies #[trigger] folded(hay[k + j]) == folded(needle[j]) by {
        assert(needle[j] == needle[j]);
    }
    assert(occurs_at(hay, needle, k));
}

/// The value of an upper-case hexadecimal digit (-1 for any other character).
pub open spec fn hex_value(ch: char) -> int {
    if '0' <= ch <= '9' {
        ch as int - '0' as int
    } else if 'A' <= ch <= 'F' {
        ch as int - 'A' as int + 10
    } else {
        -1
    }
}

/// The byte that two hexadecimal digits at `i` and `i + 1` of `s` spell.
pub open spec fn hex_byte_at(s: Seq<char>, i: int) -> int {
    hex_value(s[i]) * 16 + hex_value(s[i + 1])
}

/// `hex_digit` is the upper-case hexadecimal digit: `'0'..'9'` for 0 to 9 and
/// `'A'..'F'` for 10 to 15, and reading it back gives the number.
pub proof fn lemma_hex_digit(n: int)
    requires
        0 <= n < 16,
    ensures
        n < 10 ==> hex_digit(n) as int == '0' as int + n,
        n >= 10 ==> hex_digit(n) as int == 'A' as int + (n - 10),
        hex_value(hex_digit(n)) == n,
{
}

/// Reading the two hexadecimal digits of a byte back gives the byte.
pub proof fn lemma_hex_byte_reads_back(b: u8)
    ensures
        hex_byte_at(hex_byte(b), 0) == b,
{
    lemma_hex_digit(b as int / 16);
    lemma_hex_digit(b as int % 16);
}

/// The device id derived from an IPv4 address is six colon-separated
/// upper-case hexadecimal bytes that read back as the four octets, then two
/// zero bytes.
pub proof fn lemma_device_id_reads_back(a: u8, b: u8, c: u8, d: u8)
    ensures
        ipv4_device_id(a, b, c, d).len() == 17,
        forall|i: int| 0 <= i < 5 ==> #[trigger] ipv4_device_id(a, b, c, d)[3 * i + 2] == ':',
        hex_byte_at(ipv4_device_id(a, b, c, d), 0) == a,
        hex_byte_at(ipv4_device_id(a, b, c, d), 3) == b,
        hex_byte_at(ipv4_device_id(a, b, c, d), 6) == c,
        hex_byte_at(ipv4_device_id(a, b, c, d), 9) == d,
        hex_byte_at(ipv4_device_id(a, b, c, d), 12) == 0,
        hex_byte_at(ipv4_device_id(a, b, c, d), 15) == 0,
{
    let s = ipv4_device_id(a, b, c, d);
    lemma_hex_byte_reads_back(a);
    lemma_hex_byte_reads_back(b);
    lemma_hex_byte_reads_back(c);
    lemma_hex_byte_reads_back(d);
    assert(s[0] == hex_byte(a)[0] && s[1] == hex_byte(a)[1]);
    assert(s[3] == hex_byte(b)[0] && s[4] == hex_byte(b)[1]);
    assert(s[6] == hex_byte(c)[0] && s[7] == hex_byte(c)[1]);
    assert(s[9] == hex_byte(d)[0] && s[10] == hex_byte(d)[1]);
    assert(s[12] == '0' && s[13] == '0' && s[15] == '0' && s[16] == '0');
    assert forall|i: int| 0 <= i < 5 implies #[trigger] s[3 * i + 2] == ':' by {
        assert(s[2] == ':' && s[5] == ':' && s[8] == ':' && s[11] == ':' && s[14] == ':');
    }
}

} // verus!
