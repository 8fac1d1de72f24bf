use crate::common::CgVgError;
use crate::print_terminal::{decimal, digit_char, push_decimal};
use crate::text::{chars_of, push_char};
use vstd::prelude::*;
use vstd::utf8::encode_utf8;

verus! {

/// The `k` little-endian bytes of `n`.
pub open spec fn le_bytes(n: nat, k: nat) -> Seq<u8>
    decreases k,
{
    if k == 0 {
        seq![]
    } else {
        seq![(n % 256) as u8] + le_bytes(n / 256, (k - 1) as nat)
    }
}

/// The encoding of one entry `(path, line)`: the byte length of the path in
/// 8 little-endian bytes, the path in UTF-8, the line number in 4
/// little-endian bytes.
pub open spec fn entry_bytes(path: Seq<char>, line: u32) -> Seq<u8> {
    le_bytes(encode_utf8(path).len(), 8) + encode_utf8(path) + le_bytes(line as nat, 4)
}

/// The encodings of the offsets, one after the other, 8 bytes each.
pub open spec fn offset_words(os: Seq<usize>) -> Seq<u8>
    decreases os.len(),
{
    if os.len() == 0 {
        seq![]
    } else {
        offset_words(os.drop_last()) + le_bytes(os.last() as nat, 8)
    }
}

/// The encoding of the offset index: its length in 8 little-endian bytes,
/// then each offset in 8.
pub open spec fn offsets_bytes(os: Seq<usize>) -> Seq<u8> {
    le_bytes(os.len(), 8) + offset_words(os)
}

/// The entries as plain values.
pub open spec fn entries(v: Seq<(String, u32)>) -> Seq<(Seq<char>, u32)> {
    v.map_values(|e: (String, u32)| (e.0@, e.1))
}

/// The data file: the encoded entries back to back.
pub open spec fn data_bytes(es: Seq<(Seq<char>, u32)>) -> Seq<u8>
    decreases es.len(),
{
    if es.len() == 0 {
        seq![]
    } else {
        data_bytes(es.drop_last()) + entry_bytes(es.last().0, es.last().1)
    }
}

/// The offset index: where each entry ends in the data file.
pub open spec fn end_offsets(es: Seq<(Seq<char>, u32)>) -> Seq<usize> {
    Seq::new(es.len(), |k: int| data_bytes(es.take(k + 1)).len() as usize)
}

/// The bytes of entry `idx`: from the end of the one before (0 for the
/// first) to its own end.
pub open spec fn entry_window(os: Seq<usize>, idx: int) -> (int, int) {
    (
        if idx == 0 {
            0
        } else {
            os[idx - 1] as int
        },
        os[idx] as int,
    )
}

/// What reading entry `idx` gives, once the index decoded to `os`.
pub open spec fn read_result(
    os: Seq<usize>,
    idx: u32,
    data: Seq<u8>,
    r: Result<(String, u32), CgVgError>,
) -> bool {
    if idx >= os.len() {
        r == Err::<(String, u32), CgVgError>(CgVgError::LoadIndexOob(idx, os.len() as u32))
    } else {
        let (s, e) = entry_window(os, idx as int);
        if s > e || e > data.len() {
            r == Err::<(String, u32), CgVgError>(CgVgError::CorruptIndex)
        } else {
            &&& (r is Ok || r == Err::<(String, u32), CgVgError>(CgVgError::CorruptRecord))
            &&& forall|p: Seq<char>, l: u32|
                #[trigger] entry_bytes(p, l) == data.subrange(s, e) ==> (r is Ok && (r->Ok_0).0@
                    == p && (r->Ok_0).1 == l)
        }
    }
}

/// Relies on `bincode::serialize` (fixed-width little-endian integers, a `u64`
/// length before a string): an entry encodes as `entry_bytes`. With no size
/// limit and a `Vec` to write into, encoding a string and a `u32` cannot fail.
#[verifier::external_body]
fn serialize_entry(path: &String, line: u32) -> (r: Option<Vec<u8>>)
    ensures
        r is Some,
        r matches Some(b) ==> b@ == entry_bytes(path@, line),
{
    bincode::serialize(&(path, line)).ok()
}

/// Relies on `bincode::serialize` on a `Vec<usize>`: a `u64` length, then each
/// value as a `u64`, little endian. With no size limit and a `Vec` to write
/// into, it cannot fail.
#[verifier::external_body]
fn serialize_offsets(os: &Vec<usize>) -> (r: Option<Vec<u8>>)
    ensures
        r is Some,
        r matches Some(b) ==> b@ == offsets_bytes(os@),
{
    bincode::serialize(os).ok()
}

/// Relies on `bincode::deserialize` into a `Vec<usize>`: the encoding of a list
/// of offsets decodes to that list.
#[verifier::external_body]
fn deserialize_offsets(b: &[u8]) -> (r: Option<Vec<usize>>)
    ensures
        forall|os: Seq<usize>| #[trigger] offsets_bytes(os) == b@ ==> (r is Some && r->0@ == os),
{
    bincode::deserialize::<Vec<usize>>(b).ok()
}

/// Relies on `bincode::deserialize` into a `(String, u32)`: the encoding of an
/// entry decodes to that entry.
#[verifier::external_body]
fn deserialize_entry(b: &[u8]) -> (r: Option<(String, u32)>)
    ensures
        forall|p: Seq<char>, l: u32| #[trigger] entry_bytes(p, l) == b@ ==> (r is Some && (r->0).0@ == p
            && (r->0).1 == l),
{
    bincode::deserialize::<(String, u32)>(b).ok()
}

/// The data file and the offset index of a batch of entries. `None` when the
/// data would not fit in memory.
pub fn store_encode(records: &Vec<(String, u32)>) -> (r: Option<(Vec<u8>, Vec<u8>)>)
    ensures
        r is Some <==> data_bytes(entries(records@)).len() <= usize::MAX,
        r matches Some((data, index)) ==> {
            &&& data@ == data_bytes(entries(records@))
            &&& data@.len() <= usize::MAX
            &&& index@ == offsets_bytes(end_offsets(entries(records@)))
        },
{
    let ghost es = entries(records@);
    let mut data: Vec<u8> = Vec::new();
    let mut offsets: Vec<usize> = Vec::new();
    let mut total: usize = 0;
    let mut i: usize = 0;
    while i < records.len()
        invariant
            i <= records.len(),
            es == entries(records@),
            data@ == data_bytes(es.take(i as int)),
            total == data@.len(),
            offsets@ == end_offsets(es).take(i as int),
        decreases records.len() - i,
    {
        let mut bytes = match serialize_entry(&records[i].0, records[i].1) {
            Some(b) => b,
            None => {
                return None;
            },
        };
        if bytes.len() > usize::MAX - total {
            proof {
                let upto = es.take(i + 1);
                assert(upto.drop_last() =~= es.take(i as int));
                assert(upto + es.skip(i + 1) =~= es);
                lemma_data_bytes_concat(upto, es.skip(i + 1));
            }
            return None;
        }
        total = total + bytes.len();
        data.append(&mut bytes);
        proof {
            assert(es.take(i + 1).drop_last() =~= es.take(i as int));
            assert(es.take(i + 1).last() == (records@[i as int].0@, records@[i as int].1));
        }
        offsets.push(total);
        assert(offsets@ =~= end_offsets(es).take(i + 1));
        i = i + 1;
    }
    assert(es.take(records.len() as int) =~= es);
    assert(end_offsets(es).take(records.len() as int) =~= end_offsets(es));
    let index = match serialize_offsets(&offsets) {
        Some(b) => b,
        None => {
            return None;
        },
    };
    Some((data, index))
}

/// Where entry `idx` lies in a data file of `data_len` bytes, by the offset
/// index `offsets`.
pub fn locate_entry(idx: u32, offsets: &Vec<usize>, data_len: usize) -> (r: Result<
    (usize, usize),
    CgVgError,
>)
    ensures
        idx >= offsets@.len() ==> r == Err::<(usize, usize), CgVgError>(
            CgVgError::LoadIndexOob(idx, offsets@.len() as u32),
        ),
        idx < offsets@.len() ==> {
            let (s, e) = entry_window(offsets@, idx as int);
            &&& (s > e || e > data_len) ==> r == Err::<(usize, usize), CgVgError>(
                CgVgError::CorruptIndex,
            )
            &&& (s <= e <= data_len) ==> r == Ok::<(usize, usize), CgVgError>(
                (s as usize, e as usize),
            )
        },
{
    let i = idx as usize;
    if i >= offsets.len() {
        return Err(CgVgError::LoadIndexOob(idx, offsets.len() as u32));
    }
    let start = if i == 0 {
        0
    } else {
        offsets[i - 1]
    };
    let end = offsets[i];
    if start > end || end > data_len {
        return Err(CgVgError::CorruptIndex);
    }
    Ok((start, end))
}

/// Entry `idx` of a store, from its offset index and its data file.
pub fn store_read(idx: u32, index: &[u8], data: &[u8]) -> (r: Result<(String, u32), CgVgError>)
    ensures
        forall|os: Seq<usize>| #[trigger] offsets_bytes(os) == index@ ==> read_result(os, idx, data@, r),
{
    let offsets = match deserialize_offsets(index) {
        Some(v) => v,
        None => {
            return Err(CgVgError::CorruptIndex);
        },
    };
    let (start, end) = match locate_entry(idx, &offsets, data.len()) {
        Ok(w) => w,
        Err(e) => {
            return Err(e);
        },
    };
    let window = vstd::slice::slice_subrange(data, start, end);
    match deserialize_entry(window) {
        Some(t) => Ok(t),
        None => Err(CgVgError::CorruptRecord),
    }
}

/// The line of the text store for one entry: the line number, a space, the path.
pub open spec fn text_line(path: Seq<char>, line: u32) -> Seq<char> {
    decimal(line as nat) + seq![' '] + path
}

/// The text store line of an entry, without its newline.
pub fn text_entry_line(path: &String, line: u32) -> (r: String)
    ensures
        r@ == text_line(path@, line),
{
    let mut out = String::new();
    push_decimal(&mut out, line as u64);
    push_char(&mut out, ' ');
    out.append(path.as_str());
    assert(out@ =~= text_line(path@, line));
    out
}

/// A decimal digit.
pub open spec fn is_digit(c: char) -> bool {
    '0' <= c <= '9'
}

/// The value of a string of decimal digits.
pub open spec fn digits_value(ds: Seq<char>) -> nat
    decreases ds.len(),
{
    if ds.len() == 0 {
        0
    } else {
        digits_value(ds.drop_last()) * 10 + (ds.last() as nat - 48) as nat
    }
}

/// Every char is a decimal digit.
pub open spec fn all_digits(ds: Seq<char>) -> bool {
    forall|i: int| 0 <= i < ds.len() ==> is_digit(#[trigger] ds[i])
}

/// A `u32` written in decimal, as `str::parse` reads it: an optional `+`,
/// then one digit or more, of a value that fits.
pub open spec fn parse_u32_spec(s: Seq<char>) -> Option<u32> {
    let ds = if s.len() > 0 && s[0] == '+' {
        s.skip(1)
    } else {
        s
    };
    if ds.len() > 0 && all_digits(ds) && digits_value(ds) <= u32::MAX {
        Some(digits_value(ds) as u32)
    } else {
        None
    }
}

proof fn lemma_digits_value_grows(ds: Seq<char>, k: int)
    requires
        0 <= k <= ds.len(),
        forall|i: int| 0 <= i < ds.len() ==> is_digit(#[trigger] ds[i]),
    ensures
        digits_value(ds.take(k)) <= digits_value(ds),
    decreases ds.len() - k,
{
    if k < ds.len() {
        lemma_digits_value_grows(ds, k + 1);
        assert(ds.take(k + 1).drop_last() =~= ds.take(k));
    } else {
        assert(ds.take(k) =~= ds);
    }
}

/// Reads a `u32` written in decimal.
pub fn parse_u32(s: &[char]) -> (r: Option<u32>)
    ensures
        r == parse_u32_spec(s@),
{
    let mut k: usize = 0;
    if s.len() > 0 && s[0] == '+' {
        k = 1;
    }
    let ghost ds = if s@.len() > 0 && s@[0] == '+' {
        s@.skip(1)
    } else {
        s@
    };
    assert(parse_u32_spec(s@) == if ds.len() > 0 && all_digits(ds) && digits_value(ds) <= u32::MAX {
        Some(digits_value(ds) as u32)
    } else {
        None
    });
    let first = k;
    assert(ds =~= s@.skip(first as int));
    if first == s.len() {
        return None;
    }
    let mut value: u32 = 0;
    while k < s.len()
        invariant
            first <= k <= s.len(),
            ds == s@.skip(first as int),
            ds.len() > 0,
            parse_u32_spec(s@) == if all_digits(ds) && digits_value(ds) <= u32::MAX {
                Some(digits_value(ds) as u32)
            } else {
                None
            },
            forall|i: int| 0 <= i < k - first ==> is_digit(#[trigger] ds[i]),
            value == digits_value(ds.take(k - first)),
        decreases s.len() - k,
    {
        let c = s[k];
        assert(c == ds[k - first]);
        if c < '0' || c > '9' {
            assert(!is_digit(ds[k - first]));
            assert(!all_digits(ds));
            return None;
        }
        let d = (c as u32) - 48;
        assert(ds.take(k - first + 1).drop_last() =~= ds.take(k - first));
        if value > (u32::MAX - d) / 10 {
            proof {
                let v = value as int;
                let dd = d as int;
                assert(v * 10 + dd > u32::MAX) by (nonlinear_arith)
                    requires
                        v > (u32::MAX - dd) / 10,
                        0 <= dd <= 9,
                ;
                assert(ds.take(k - first + 1).last() == c);
                assert(digits_value(ds.take(k - first + 1)) > u32::MAX);
                if all_digits(ds) {
                    lemma_digits_value_grows(ds, k - first + 1);
                }
            }
            return None;
        }
        value = value * 10 + d;
        k = k + 1;
    }
    assert(ds.take(k - first) =~= ds);
    Some(value)
}

/// Index of the first `c` in `s` at or after `i`, or the length of `s`.
pub open spec fn find_char(s: Seq<char>, c: char, i: int) -> int
    decreases s.len() - i,
{
    if i >= s.len() {
        s.len() as int
    } else if s[i] == c {
        i
    } else {
        find_char(s, c, i + 1)
    }
}

/// The entry that a line of the text store holds: the path after the first
/// space, the line number before it.
pub open spec fn parse_text_line(l: Seq<char>) -> Option<(Seq<char>, u32)> {
    let j = find_char(l, ' ', 0);
    if j >= l.len() {
        None
    } else {
        match parse_u32_spec(l.take(j)) {
            Some(n) => Some((l.skip(j + 1), n)),
            None => None,
        }
    }
}

/// Entry `idx` of the text store, from its lines.
pub fn text_entry(idx: u32, lines: &Vec<String>) -> (r: Result<(String, u32), CgVgError>)
    ensures
        idx >= lines@.len() ==> r == Err::<(String, u32), CgVgError>(
            CgVgError::LoadIndexOob(idx, lines@.len() as u32),
        ),
        idx < lines@.len() ==> match parse_text_line(lines@[idx as int]@) {
            Some((p, n)) => r is Ok && (r->Ok_0).0@ == p && (r->Ok_0).1 == n,
            None => r == Err::<(String, u32), CgVgError>(CgVgError::LoadIndexFormat),
        },
{
    let i = idx as usize;
    if i >= lines.len() {
        return Err(CgVgError::LoadIndexOob(idx, lines.len() as u32));
    }
    let line = lines[i].as_str();
    let cs = chars_of(line);
    let mut j: usize = 0;
    while j < cs.len() && cs[j] != ' '
        invariant
            j <= cs.len(),
            cs@ == line@,
            find_char(line@, ' ', 0) == find_char(line@, ' ', j as int),
        decreases cs.len() - j,
    {
        j = j + 1;
    }
    if j == cs.len() {
        return Err(CgVgError::LoadIndexFormat);
    }
    let number = vstd::slice::slice_subrange(cs.as_slice(), 0, j);
    assert(number@ =~= line@.take(j as int));
    match parse_u32(number) {
        Some(n) => {
            let path = line.substring_char(j + 1, cs.len());
            assert(path@ =~= line@.skip(j + 1));
            Ok((String::from_str(path), n))
        },
        None => Err(CgVgError::LoadIndexFormat),
    }
}

proof fn lemma_decimal_parses(n: nat)
    ensures
        decimal(n).len() >= 1,
        all_digits(decimal(n)),
        digits_value(decimal(n)) == n,
    decreases n,
{
    if n < 10 {
        let c = digit_char(n);
        assert(c as nat == 48 + n);
        assert(seq![c].drop_last() =~= Seq::<char>::empty());
        assert(digits_value(seq![c]) == digits_value(Seq::<char>::empty()) * 10 + n);
    } else {
        lemma_decimal_parses(n / 10);
        let d = decimal(n);
        assert(d.drop_last() =~= decimal(n / 10));
        assert(digit_char(n % 10) as nat == 48 + n % 10);
        assert forall|i: int| 0 <= i < d.len() implies is_digit(#[trigger] d[i]) by {
            if i < d.len() - 1 {
                assert(d[i] == decimal(n / 10)[i]);
            }
        }
        vstd::arithmetic::div_mod::lemma_fundamental_div_mod(n as int, 10);
        assert(d.last() == digit_char(n % 10));
        assert(digits_value(d) == digits_value(decimal(n / 10)) * 10 + n % 10);
    }
}

proof fn lemma_find_space(s: Seq<char>, i: int, j: int)
    requires
        0 <= i <= j < s.len(),
        s[j] == ' ',
        forall|k: int| i <= k < j ==> s[k] != ' ',
    ensures
        find_char(s, ' ', i) == j,
    decreases j - i,
{
    if i < j {
        lemma_find_space(s, i + 1, j);
    }
}

/// The text store reads back what it wrote: the line of entry `(path, line)`
/// parses back into that entry, whatever the path holds.
pub proof fn lemma_text_line_round_trip(path: Seq<char>, line: u32)
    ensures
        parse_text_line(text_line(path, line)) == Some((path, line)),
{
    let d = decimal(line as nat);
    let l = text_line(path, line);
    lemma_decimal_parses(line as nat);
    let j = d.len() as int;
    assert forall|k: int| 0 <= k < j implies l[k] != ' ' by {
        assert(l[k] == d[k]);
        assert(is_digit(d[k]));
    }
    assert(l[j] == ' ');
    lemma_find_space(l, 0, j);
    assert(l.take(j) =~= d);
    assert(l.skip(j + 1) =~= path);
    assert(is_digit(d[0]));
}

proof fn lemma_data_bytes_concat(a: Seq<(Seq<char>, u32)>, b: Seq<(Seq<char>, u32)>)
    ensures
        data_bytes(a + b) == data_bytes(a) + data_bytes(b),
    decreases b.len(),
{
    if b.len() == 0 {
        assert(a + b =~= a);
        assert(data_bytes(a) + seq![] =~= data_bytes(a));
    } else {
        lemma_data_bytes_concat(a, b.drop_last());
        assert((a + b).drop_last() =~= a + b.drop_last());
        assert((a + b).last() == b.last());
        assert(data_bytes(a) + data_bytes(b.drop_last()) + entry_bytes(b.last().0, b.last().1)
            =~= data_bytes(a) + (data_bytes(b.drop_last()) + entry_bytes(b.last().0, b.last().1)));
    }
}

/// Round trip: once `store_encode` wrote the entries `es`, reading entry `i`
/// gives back `es[i]` for every `i` below the number of entries, and reading
/// entry `len(es)` fails with `LoadIndexOob(len(es), len(es))`.
pub proof fn lemma_store_round_trip(es: Seq<(Seq<char>, u32)>, i: u32)
    requires
        data_bytes(es).len() <= usize::MAX,
        i <= es.len(),
    ensures
        forall|r: Result<(String, u32), CgVgError>|
            #[trigger] read_result(end_offsets(es), i, data_bytes(es), r) ==> if i < es.len() {
                r is Ok && (r->Ok_0).0@ == es[i as int].0 && (r->Ok_0).1 == es[i as int].1
            } else {
                r == Err::<(String, u32), CgVgError>(CgVgError::LoadIndexOob(i, i))
            },
{
    let os = end_offsets(es);
    if i < es.len() {
        let k = i as int;
        let head = es.take(k);
        let upto = es.take(k + 1);
        let tail = es.skip(k + 1);
        assert(upto.drop_last() =~= head);
        assert(upto + tail =~= es);
        lemma_data_bytes_concat(upto, tail);
        lemma_data_bytes_concat(head, tail);
        let d = data_bytes(es);
        let e_b = entry_bytes(es[k].0, es[k].1);
        assert(data_bytes(upto) == data_bytes(head) + e_b);
        if k > 0 {
            assert(es.take(k - 1 + 1) =~= head);
        } else {
            assert(head =~= Seq::<(Seq<char>, u32)>::empty());
        }
        let (s, e) = entry_window(os, k);
        assert(s == data_bytes(head).len());
        assert(e == data_bytes(upto).len());
        assert(d.subrange(s, e) =~= e_b);
    }
}

} // verus!
