use vstd::prelude::*;
use vstd::bytes::{
    lemma_auto_spec_u32_to_from_le_bytes, lemma_auto_spec_u64_to_from_le_bytes, spec_u32_to_le_bytes,
    spec_u64_to_le_bytes, u32_from_le_bytes, u32_to_le_bytes, u64_from_le_bytes, u64_to_le_bytes,
};
use vstd::slice::{slice_subrange, slice_to_vec};
use crate::error::HuffmanError;
use crate::freq::lemma_scalar_injective;

verus! {

/// One table entry as stored: the symbol's scalar value in four bytes, then
/// its weight in eight, both little-endian.
pub open spec fn entry_bytes(e: (char, u64)) -> Seq<u8> {
    spec_u32_to_le_bytes(e.0 as u32) + spec_u64_to_le_bytes(e.1)
}

pub open spec fn entries_bytes(f: Seq<(char, u64)>) -> Seq<u8>
    decreases f.len(),
{
    if f.len() == 0 {
        Seq::empty()
    } else {
        entries_bytes(f.drop_last()) + entry_bytes(f.last())
    }
}

/// A stored encoding: the number of table entries (eight bytes,
/// little-endian), the entries, the exact bit length of the payload (eight
/// bytes, little-endian), then the packed payload.
pub open spec fn container_bytes(f: Seq<(char, u64)>, bit_len: u64, payload: Seq<u8>) -> Seq<u8> {
    spec_u64_to_le_bytes(f.len() as u64) + entries_bytes(f) + spec_u64_to_le_bytes(bit_len) + payload
}

pub open spec fn is_container(b: Seq<u8>) -> bool {
    exists|f: Seq<(char, u64)>, n: u64, p: Seq<u8>| f.len() <= u64::MAX && b == container_bytes(f, n, p)
}

proof fn lemma_entries_len(f: Seq<(char, u64)>)
    ensures
        entries_bytes(f).len() == 12 * f.len(),
    decreases f.len(),
{
    lemma_auto_spec_u32_to_from_le_bytes();
    lemma_auto_spec_u64_to_from_le_bytes();
    if f.len() > 0 {
        lemma_entries_len(f.drop_last());
        assert(spec_u32_to_le_bytes(f.last().0 as u32).len() == 4);
        assert(spec_u64_to_le_bytes(f.last().1).len() == 8);
    }
}

proof fn lemma_entries_at(f: Seq<(char, u64)>, k: int)
    requires
        0 <= k < f.len(),
    ensures
        entries_bytes(f).subrange(12 * k, 12 * k + 12) == entry_bytes(f[k]),
    decreases f.len(),
{
    lemma_auto_spec_u32_to_from_le_bytes();
    lemma_auto_spec_u64_to_from_le_bytes();
    lemma_entries_len(f.drop_last());
    assert(spec_u32_to_le_bytes(f.last().0 as u32).len() == 4);
    assert(spec_u64_to_le_bytes(f.last().1).len() == 8);
    if k == f.len() - 1 {
        assert(entries_bytes(f).subrange(12 * k, 12 * k + 12) =~= entry_bytes(f[k]));
    } else {
        lemma_entries_at(f.drop_last(), k);
        assert(entries_bytes(f).subrange(12 * k, 12 * k + 12)
            =~= entries_bytes(f.drop_last()).subrange(12 * k, 12 * k + 12));
    }
}

/// The parts of a container sit at fixed offsets.
proof fn lemma_container_parts(f: Seq<(char, u64)>, n: u64, p: Seq<u8>)
    requires
        f.len() <= u64::MAX,
    ensures
        ({
            let b = container_bytes(f, n, p);
            let m: int = 8 + 12 * (f.len() as int);
            &&& b.len() == m + 8 + p.len()
            &&& b.subrange(0, 8) == spec_u64_to_le_bytes(f.len() as u64)
            &&& b.subrange(8, m) == entries_bytes(f)
            &&& b.subrange(m, m + 8) == spec_u64_to_le_bytes(n)
            &&& b.subrange(m + 8, b.len() as int) == p
        }),
{
    lemma_auto_spec_u64_to_from_le_bytes();
    lemma_entries_len(f);
    let b = container_bytes(f, n, p);
    let m: int = 8 + 12 * (f.len() as int);
    assert(spec_u64_to_le_bytes(f.len() as u64).len() == 8);
    assert(spec_u64_to_le_bytes(n).len() == 8);
    assert(b.subrange(0, 8) =~= spec_u64_to_le_bytes(f.len() as u64));
    assert(b.subrange(8, m) =~= entries_bytes(f));
    assert(b.subrange(m, m + 8) =~= spec_u64_to_le_bytes(n));
    assert(b.subrange(m + 8, b.len() as int) =~= p);
}

/// A container determines its table, bit length and payload.
pub proof fn lemma_container_injective(
    f: Seq<(char, u64)>,
    n: u64,
    p: Seq<u8>,
    f2: Seq<(char, u64)>,
    n2: u64,
    p2: Seq<u8>,
)
    requires
        f.len() <= u64::MAX,
        f2.len() <= u64::MAX,
        container_bytes(f, n, p) == container_bytes(f2, n2, p2),
    ensures
        f == f2,
        n == n2,
        p == p2,
{
    lemma_auto_spec_u32_to_from_le_bytes();
    lemma_auto_spec_u64_to_from_le_bytes();
    lemma_container_parts(f, n, p);
    lemma_container_parts(f2, n2, p2);
    let b = container_bytes(f, n, p);
    assert(f.len() as u64 == f2.len() as u64);
    assert(f.len() == f2.len());
    let m: int = 8 + 12 * (f.len() as int);
    assert forall|k: int| 0 <= k < f.len() implies f[k] == f2[k] by {
        lemma_entries_at(f, k);
        lemma_entries_at(f2, k);
        let e = entry_bytes(f[k]);
        let e2 = entry_bytes(f2[k]);
        assert(e == e2);
        assert(e.subrange(0, 4) =~= spec_u32_to_le_bytes(f[k].0 as u32));
        assert(e2.subrange(0, 4) =~= spec_u32_to_le_bytes(f2[k].0 as u32));
        assert(e.subrange(4, 12) =~= spec_u64_to_le_bytes(f[k].1));
        assert(e2.subrange(4, 12) =~= spec_u64_to_le_bytes(f2[k].1));
        lemma_scalar_injective(f[k].0, f2[k].0);
    }
    assert(f =~= f2);
}

/// What `write_container` stores is a well-formed container, so
/// `read_container` accepts it; by `lemma_container_injective` it then gives
/// back the same table, bit length and payload.
pub proof fn lemma_container_round_trip(f: Seq<(char, u64)>, n: u64, p: Seq<u8>)
    requires
        f.len() <= u64::MAX,
    ensures
        is_container(container_bytes(f, n, p)),
        forall|f2: Seq<(char, u64)>, n2: u64, p2: Seq<u8>|
            f2.len() <= u64::MAX && #[trigger] container_bytes(f2, n2, p2) == container_bytes(f, n, p)
                ==> f2 == f && n2 == n && p2 == p,
{
    assert forall|f2: Seq<(char, u64)>, n2: u64, p2: Seq<u8>|
        f2.len() <= u64::MAX && #[trigger] container_bytes(f2, n2, p2) == container_bytes(f, n, p)
            implies f2 == f && n2 == n && p2 == p by {
        lemma_container_injective(f, n, p, f2, n2, p2);
    }
}

/// Relies on char::from_u32: the character whose scalar value is `v`, or
/// `None` when `v` is no Unicode scalar value.
#[verifier::external_body]
fn char_from_scalar(v: u32) -> (r: Option<char>)
    ensures
        match r {
            Some(c) => c as u32 == v,
            None => !vstd::utf8::is_scalar(v),
        },
{
    char::from_u32(v)
}

fn append_bytes(out: &mut Vec<u8>, b: &Vec<u8>)
    ensures
        final(out)@ == old(out)@ + b@,
{
    let ghost start = out@;
    let mut j: usize = 0;
    while j < b.len()
        invariant
            j <= b@.len(),
            out@ == start + b@.take(j as int),
        decreases b@.len() - j,
    {
        out.push(b[j]);
        j = j + 1;
        proof {
            assert(b@.take(j as int) =~= b@.take(j - 1).push(b@[j - 1]));
        }
    }
    proof {
        assert(b@.take(j as int) =~= b@);
    }
}

/// Stores a frequency table, the exact bit length of an encoded stream and
/// its packed bytes together, so that a later reader can rebuild the tree.
pub fn write_container(freqs: &Vec<(char, u64)>, bit_len: u64, payload: &Vec<u8>) -> (r: Vec<u8>)
    ensures
        r@ == container_bytes(freqs@, bit_len, payload@),
{
    let mut out = u64_to_le_bytes(freqs.len() as u64);
    let mut k: usize = 0;
    while k < freqs.len()
        invariant
            k <= freqs@.len(),
            out@ == spec_u64_to_le_bytes(freqs@.len() as u64) + entries_bytes(freqs@.take(k as int)),
        decreases freqs@.len() - k,
    {
        let (c, w) = freqs[k];
        let ghost before = out@;
        append_bytes(&mut out, &u32_to_le_bytes(c as u32));
        append_bytes(&mut out, &u64_to_le_bytes(w));
        k = k + 1;
        proof {
            assert(freqs@.take(k as int).drop_last() =~= freqs@.take(k - 1));
            assert(out@ =~= spec_u64_to_le_bytes(freqs@.len() as u64) + entries_bytes(freqs@.take(k as int)));
        }
    }
    proof {
        assert(freqs@.take(k as int) =~= freqs@);
    }
    append_bytes(&mut out, &u64_to_le_bytes(bit_len));
    append_bytes(&mut out, payload);
    out
}

proof fn lemma_scalar_bytes(c: char)
    ensures
        spec_u32_to_le_bytes(c as u32).len() == 4,
        vstd::bytes::spec_u32_from_le_bytes(spec_u32_to_le_bytes(c as u32)) == c as u32,
        vstd::utf8::is_scalar(c as u32),
{
    lemma_auto_spec_u32_to_from_le_bytes();
    vstd::utf8::char_is_scalar(c);
}

proof fn lemma_not_container_short(b: Seq<u8>)
    requires
        b.len() < 16,
    ensures
        !is_container(b),
{
    if is_container(b) {
        let (f, n, p) = choose|f: Seq<(char, u64)>, n: u64, p: Seq<u8>|
            f.len() <= u64::MAX && b == container_bytes(f, n, p);
        lemma_container_parts(f, n, p);
    }
}

/// In a container, the leading count is the table's length and each entry
/// sits at its offset.
proof fn lemma_container_fields(b: Seq<u8>, f: Seq<(char, u64)>, n: u64, p: Seq<u8>)
    requires
        f.len() <= u64::MAX,
        b == container_bytes(f, n, p),
    ensures
        vstd::bytes::spec_u64_from_le_bytes(b.subrange(0, 8)) == f.len(),
        forall|k: int| 0 <= k < f.len() ==> #[trigger] b.subrange(8 + 12 * k, 8 + 12 * k + 12) == entry_bytes(f[k]),
{
    lemma_auto_spec_u64_to_from_le_bytes();
    lemma_container_parts(f, n, p);
    assert forall|k: int| 0 <= k < f.len() implies #[trigger] b.subrange(8 + 12 * k, 8 + 12 * k + 12) == entry_bytes(f[k]) by {
        lemma_entries_at(f, k);
        let m: int = 8 + 12 * (f.len() as int);
        assert(b.subrange(8 + 12 * k, 8 + 12 * k + 12) =~= b.subrange(8, m).subrange(12 * k, 12 * k + 12));
    }
}

/// Reads what `write_container` stores. It succeeds exactly on well-formed
/// containers.
pub fn read_container(bytes: &Vec<u8>) -> (r: Result<(Vec<(char, u64)>, u64, Vec<u8>), HuffmanError>)
    ensures
        is_container(bytes@) <==> r is Ok,
        r matches Ok((f, n, p)) ==> bytes@ == container_bytes(f@, n, p@),
        r is Err ==> r->Err_0 == HuffmanError::MalformedContainer,
{
    proof {
        lemma_auto_spec_u32_to_from_le_bytes();
        lemma_auto_spec_u64_to_from_le_bytes();
    }
    let len = bytes.len();
    if len < 16 {
        proof {
            lemma_not_container_short(bytes@);
        }
        return Err(HuffmanError::MalformedContainer);
    }
    let s = bytes.as_slice();
    let count = u64_from_le_bytes(slice_subrange(s, 0, 8));
    let avail = len - 16;
    if count > (avail / 12) as u64 {
        proof {
            if is_container(bytes@) {
                let (f, n, p) = choose|f: Seq<(char, u64)>, n: u64, p: Seq<u8>|
                    f.len() <= u64::MAX && bytes@ == container_bytes(f, n, p);
                lemma_container_parts(f, n, p);
                lemma_container_fields(bytes@, f, n, p);
                assert(avail == 12 * f.len() + p.len());
                assert((12 * f.len() + p.len()) / 12 >= f.len()) by (nonlinear_arith);
            }
        }
        return Err(HuffmanError::MalformedContainer);
    }
    let n = count as usize;
    proof {
        assert(12 * n <= avail) by (nonlinear_arith)
            requires n <= avail / 12;
    }
    let body_end = 8 + n * 12;
    let mut f: Vec<(char, u64)> = Vec::new();
    let mut k: usize = 0;
    while k < n
        invariant
            k <= n,
            n == count,
            body_end == 8 + 12 * n,
            body_end + 8 <= len,
            len == bytes@.len(),
            s@ == bytes@,
            f@.len() == k,
            entries_bytes(f@) == bytes@.subrange(8, 8 + 12 * k),
            count == vstd::bytes::spec_u64_from_le_bytes(bytes@.subrange(0, 8)),
        decreases n - k,
    {
        let pos = 8 + 12 * k;
        let v = u32_from_le_bytes(slice_subrange(s, pos, pos + 4));
        let c = match char_from_scalar(v) {
            Some(c) => c,
            None => {
                proof {
                    lemma_auto_spec_u32_to_from_le_bytes();
                    if is_container(bytes@) {
                        let (f2, n2, p2) = choose|f: Seq<(char, u64)>, n: u64, p: Seq<u8>|
                            f.len() <= u64::MAX && bytes@ == container_bytes(f, n, p);
                        lemma_container_fields(bytes@, f2, n2, p2);
                        assert(f2.len() == count);
                        assert(bytes@.subrange(8 + 12 * (k as int), 8 + 12 * (k as int) + 12) == entry_bytes(f2[k as int]));
                        let e = bytes@.subrange(pos as int, pos + 12);
                        lemma_scalar_bytes(f2[k as int].0);
                        assert(e == entry_bytes(f2[k as int]));
                        assert(e.subrange(0, 4) =~= spec_u32_to_le_bytes(f2[k as int].0 as u32));
                        assert(bytes@.subrange(pos as int, pos + 4) =~= e.subrange(0, 4));
                        vstd::utf8::char_is_scalar(f2[k as int].0);
                        assert(v == f2[k as int].0 as u32);
                    }
                }
                return Err(HuffmanError::MalformedContainer);
            },
        };
        let w = u64_from_le_bytes(slice_subrange(s, pos + 4, pos + 12));
        let ghost before = f@;
        f.push((c, w));
        k = k + 1;
        proof {
            assert(f@.drop_last() == before);
            let e = bytes@.subrange(pos as int, pos + 12);
            lemma_auto_spec_u32_to_from_le_bytes();
            lemma_auto_spec_u64_to_from_le_bytes();
            let s4 = bytes@.subrange(pos as int, pos + 4);
            let s8 = bytes@.subrange(pos + 4, pos + 12);
            assert(spec_u32_to_le_bytes(vstd::bytes::spec_u32_from_le_bytes(s4)) == s4);
            assert(spec_u64_to_le_bytes(vstd::bytes::spec_u64_from_le_bytes(s8)) == s8);
            assert(spec_u32_to_le_bytes(c as u32) == s4);
            assert(spec_u64_to_le_bytes(w) == s8);
            assert(entry_bytes((c, w)) =~= e);
            assert(bytes@.subrange(8, 8 + 12 * k) =~= bytes@.subrange(8, pos as int) + e);
        }
    }
    let bit_len = u64_from_le_bytes(slice_subrange(s, body_end, body_end + 8));
    let payload = slice_to_vec(slice_subrange(s, body_end + 8, len));
    proof {
        assert(spec_u64_to_le_bytes(f@.len() as u64) == bytes@.subrange(0, 8));
        assert(spec_u64_to_le_bytes(bit_len) == bytes@.subrange(body_end as int, body_end + 8));
        assert(bytes@ =~= container_bytes(f@, bit_len, payload@));
    }
    Ok((f, bit_len, payload))
}

} // verus!
