use vstd::prelude::*;
use vstd::bytes::{spec_u32_from_le_bytes, spec_u32_to_le_bytes, u32_from_le_bytes, u32_to_le_bytes, lemma_auto_spec_u32_to_from_le_bytes};
use vstd::slice::slice_to_vec;

verus! {

/// One file found under a database folder: its name and its contents.
pub struct StoredFile {
    pub name: Vec<u8>,
    pub contents: Vec<u8>,
}

/// The ASCII decimal digits of `n`, without leading zeros.
pub open spec fn decimal(n: nat) -> Seq<u8>
    decreases n,
{
    if n < 10 {
        seq![(48 + n) as u8]
    } else {
        decimal(n / 10).push((48 + n % 10) as u8)
    }
}

/// Whether `c` is an ASCII decimal digit.
pub open spec fn is_digit(c: u8) -> bool {
    48 <= c <= 57
}

/// The number that the ASCII digits `s` write.
pub open spec fn digits_value(s: Seq<u8>) -> nat
    decreases s.len(),
{
    if s.len() == 0 {
        0
    } else {
        digits_value(s.drop_last()) * 10 + (s.last() - 48) as nat
    }
}

/// The digits of a file name, after an optional leading `+`.
pub open spec fn name_digits(name: Seq<u8>) -> Seq<u8> {
    if name.len() > 0 && name[0] == 43 {
        name.drop_first()
    } else {
        name
    }
}

/// The key that a file name stands for: a decimal number that fits in a `u32`.
pub open spec fn key_of_name(name: Seq<u8>) -> Option<usize> {
    let d = name_digits(name);
    if d.len() > 0 && (forall|i: int| 0 <= i < d.len() ==> is_digit(#[trigger] d[i]))
        && digits_value(d) <= u32::MAX {
        Some(digits_value(d) as usize)
    } else {
        None
    }
}

/// A key file's contents: its per-key version (little-endian), then its value.
pub open spec fn file_bytes(version: u32, value: Seq<u8>) -> Seq<u8> {
    spec_u32_to_le_bytes(version) + value
}

/// The version and value that a key file holds, if it is long enough to hold a version and
/// its value's length fits in a `u32`.
pub open spec fn file_entry(contents: Seq<u8>) -> Option<(u32, Seq<u8>)> {
    if contents.len() < 4 || contents.len() - 4 > u32::MAX {
        None
    } else {
        Some(
            (
                spec_u32_from_le_bytes(contents.subrange(0, 4)),
                contents.subrange(4, contents.len() as int),
            ),
        )
    }
}

/// A `StoredFile` as (name, contents).
pub open spec fn stored_view(f: StoredFile) -> (Seq<u8>, Seq<u8>) {
    (f.name@, f.contents@)
}

/// The entries that the files of a database folder hold, read in order (a later file of the
/// same key wins); none if a name is not a key or a file is too short.
pub open spec fn load_files(files: Seq<(Seq<u8>, Seq<u8>)>) -> Option<Map<usize, (u32, Seq<u8>)>>
    decreases files.len(),
{
    if files.len() == 0 {
        Some(Map::empty())
    } else {
        match load_files(files.drop_last()) {
            None => None,
            Some(m) => match (key_of_name(files.last().0), file_entry(files.last().1)) {
                (Some(k), Some(e)) => Some(m.insert(k, e)),
                _ => None,
            },
        }
    }
}

/// Once a prefix of the files fails to load, the whole listing fails.
pub proof fn lemma_load_prefix_none(files: Seq<(Seq<u8>, Seq<u8>)>, n: int)
    requires
        0 <= n <= files.len(),
        load_files(files.subrange(0, n)) is None,
    ensures
        load_files(files) is None,
    decreases files.len() - n,
{
    if n < files.len() {
        let f = files.subrange(0, n + 1);
        assert(f.drop_last() =~= files.subrange(0, n));
        lemma_load_prefix_none(files, n + 1);
    } else {
        assert(files.subrange(0, n) =~= files);
    }
}

proof fn lemma_decimal(n: nat)
    ensures
        decimal(n).len() > 0,
        decimal(n)[0] != 43,
        forall|i: int| 0 <= i < decimal(n).len() ==> is_digit(#[trigger] decimal(n)[i]),
        digits_value(decimal(n)) == n,
    decreases n,
{
    let s = decimal(n);
    if n >= 10 {
        lemma_decimal(n / 10);
        assert(s.drop_last() =~= decimal(n / 10));
        assert((n / 10) * 10 + n % 10 == n);
        assert(s.last() == 48 + n % 10);
        assert(digits_value(s) == digits_value(decimal(n / 10)) * 10 + n % 10);
    } else {
        assert(s.drop_last() =~= Seq::<u8>::empty());
        assert(digits_value(Seq::<u8>::empty()) == 0);
    }
}

/// A key's file name reads back as that key.
pub proof fn lemma_key_of_decimal(k: usize)
    requires
        k <= u32::MAX,
    ensures
        key_of_name(decimal(k as nat)) == Some(k),
{
    lemma_decimal(k as nat);
}

/// A key file reads back as the version and value written to it.
pub proof fn lemma_file_entry(version: u32, value: Seq<u8>)
    requires
        value.len() <= u32::MAX,
    ensures
        file_entry(file_bytes(version, value)) == Some((version, value)),
{
    lemma_auto_spec_u32_to_from_le_bytes();
    let b = file_bytes(version, value);
    assert(b.subrange(0, 4) =~= spec_u32_to_le_bytes(version));
    assert(b.subrange(4, b.len() as int) =~= value);
}

/// Writes the decimal digits of `n`.
pub fn decimal_name(n: usize) -> (r: Vec<u8>)
    ensures
        r@ == decimal(n as nat),
    decreases n,
{
    if n < 10 {
        let mut r: Vec<u8> = Vec::new();
        r.push((48 + n) as u8);
        r
    } else {
        let mut r = decimal_name(n / 10);
        r.push((48 + n % 10) as u8);
        r
    }
}

/// Reads a file name as a key.
pub fn parse_key(name: &[u8]) -> (r: Option<usize>)
    ensures
        r == key_of_name(name@),
{
    let ghost d = name_digits(name@);
    let mut start: usize = 0;
    if name.len() > 0 && name[0] == 43 {
        start = 1;
    }
    assert(d =~= name@.subrange(start as int, name@.len() as int));
    if start == name.len() {
        return None;
    }
    let mut value: u64 = 0;
    let mut i: usize = start;
    while i < name.len()
        invariant
            start <= i <= name@.len(),
            d == name_digits(name@),
            d =~= name@.subrange(start as int, name@.len() as int),
            forall|j: int| 0 <= j < i - start ==> is_digit(#[trigger] d[j]),
            value as int == if digits_value(d.subrange(0, i - start)) <= u32::MAX {
                digits_value(d.subrange(0, i - start)) as int
            } else {
                u32::MAX + 1
            },
        decreases name@.len() - i,
    {
        let c = name[i];
        if c < 48 || c > 57 {
            assert(d[i - start] == c);
            assert(!is_digit(d[i - start]));
            return None;
        }
        let ghost prev = d.subrange(0, i - start);
        let ghost next = d.subrange(0, i + 1 - start);
        assert(next.drop_last() =~= prev);
        assert(next.last() == c);
        let digit = (c - 48) as u64;
        if value > u32::MAX as u64 {
            value = u32::MAX as u64 + 1;
        } else {
            value = value * 10 + digit;
            if value > u32::MAX as u64 {
                value = u32::MAX as u64 + 1;
            }
        }
        i = i + 1;
    }
    assert(d.subrange(0, d.len() as int) =~= d);
    if value > u32::MAX as u64 {
        None
    } else {
        Some(value as usize)
    }
}

/// The contents of a key file.
pub fn encode_file(version: u32, value: &[u8]) -> (r: Vec<u8>)
    ensures
        r@ == file_bytes(version, value@),
{
    let mut r = u32_to_le_bytes(version);
    let mut rest = slice_to_vec(value);
    r.append(&mut rest);
    r
}

/// Reads a key file's version and value.
pub fn decode_file(contents: &[u8]) -> (r: Option<(u32, Vec<u8>)>)
    ensures
        match r {
            Some((v, d)) => file_entry(contents@) == Some((v, d@)),
            None => file_entry(contents@) is None,
        },
{
    if contents.len() < 4 || contents.len() - 4 > u32::MAX as usize {
        return None;
    }
    let version = u32_from_le_bytes(&contents[0..4]);
    let data = slice_to_vec(&contents[4..contents.len()]);
    Some((version, data))
}

} // verus!
