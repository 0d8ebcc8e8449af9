//! The binary layout of a persisted action-value table.
//!
//! A table is a run of records with no header. Each record is a 64-bit key
//! followed by five 32-bit action values, all little-endian; the values are
//! kept as the bit patterns of their IEEE-754 single-precision floats, so a
//! table survives a write and a read bit for bit. A trailing partial record
//! is dropped on reading.
use vstd::prelude::*;

verus! {

/// Bytes in one record: an 8-byte key and five 4-byte values.
pub const RECORD_LEN: usize = 28;

/// One table entry: the hashed key and the bit patterns of its five values.
pub type Record = (u64, [u32; 5]);

pub open spec fn pow256(n: nat) -> nat
    decreases n,
{
    if n == 0 {
        1
    } else {
        256 * pow256((n - 1) as nat)
    }
}

/// The `n` low bytes of `v`, least significant first.
pub open spec fn le_bytes(v: nat, n: nat) -> Seq<u8>
    decreases n,
{
    if n == 0 {
        Seq::empty()
    } else {
        seq![(v % 256) as u8] + le_bytes(v / 256, (n - 1) as nat)
    }
}

/// The number that little-endian bytes `s` encode.
pub open spec fn le_value(s: Seq<u8>) -> nat
    decreases s.len(),
{
    if s.len() == 0 {
        0
    } else {
        s[0] as nat + 256 * le_value(s.drop_first())
    }
}

/// The bytes of one record.
pub open spec fn record_bytes(rec: Record) -> Seq<u8> {
    le_bytes(rec.0 as nat, 8) + le_bytes(rec.1[0] as nat, 4) + le_bytes(rec.1[1] as nat, 4)
        + le_bytes(rec.1[2] as nat, 4) + le_bytes(rec.1[3] as nat, 4) + le_bytes(rec.1[4] as nat, 4)
}

/// The bytes of a table: its records one after another.
pub open spec fn encoded(recs: Seq<Record>) -> Seq<u8>
    decreases recs.len(),
{
    if recs.len() == 0 {
        Seq::empty()
    } else {
        encoded(recs.drop_last()) + record_bytes(recs.last())
    }
}

/// Key of the record that starts at byte `at`.
pub open spec fn key_at(bytes: Seq<u8>, at: int) -> nat {
    le_value(bytes.subrange(at, at + 8))
}

/// Value `j` of the record that starts at byte `at`.
pub open spec fn value_at(bytes: Seq<u8>, at: int, j: int) -> nat {
    le_value(bytes.subrange(at + 8 + 4 * j, at + 12 + 4 * j))
}

/// `recs` are the whole records of `bytes`, in order.
pub open spec fn decodes_to(bytes: Seq<u8>, recs: Seq<Record>) -> bool {
    &&& recs.len() == bytes.len() / 28
    &&& forall|i: int|
        0 <= i < recs.len() ==> {
            &&& #[trigger] recs[i].0 as nat == key_at(bytes, 28 * i)
            &&& forall|j: int| 0 <= j < 5 ==> recs[i].1[j] as nat == value_at(bytes, 28 * i, j)
        }
}

pub proof fn lemma_le_bytes_len(v: nat, n: nat)
    ensures
        le_bytes(v, n).len() == n,
    decreases n,
{
    if n > 0 {
        lemma_le_bytes_len(v / 256, (n - 1) as nat);
    }
}

pub proof fn lemma_le_round_trip(v: nat, n: nat)
    requires
        v < pow256(n),
    ensures
        le_value(le_bytes(v, n)) == v,
    decreases n,
{
    if n > 0 {
        let s = le_bytes(v, n);
        lemma_le_bytes_len(v / 256, (n - 1) as nat);
        assert(s.drop_first() =~= le_bytes(v / 256, (n - 1) as nat));
        assert(v / 256 < pow256((n - 1) as nat));
        lemma_le_round_trip(v / 256, (n - 1) as nat);
    }
}

pub proof fn lemma_le_value_bound(s: Seq<u8>)
    ensures
        le_value(s) < pow256(s.len()),
    decreases s.len(),
{
    if s.len() > 0 {
        lemma_le_value_bound(s.drop_first());
        assert(pow256(s.len()) == 256 * pow256(s.drop_first().len()));
    }
}

pub proof fn lemma_record_bytes(rec: Record)
    ensures
        record_bytes(rec).len() == 28,
        key_at(record_bytes(rec), 0) == rec.0 as nat,
        forall|j: int| 0 <= j < 5 ==> #[trigger] value_at(record_bytes(rec), 0, j) == rec.1[j] as nat,
{
    let s = record_bytes(rec);
    reveal_with_fuel(pow256, 9);
    lemma_le_bytes_len(rec.0 as nat, 8);
    lemma_le_round_trip(rec.0 as nat, 8);
    assert(s.subrange(0, 8) =~= le_bytes(rec.0 as nat, 8));
    assert forall|j: int| 0 <= j < 5 implies #[trigger] value_at(s, 0, j) == rec.1[j] as nat by {
        lemma_le_bytes_len(rec.1[j] as nat, 4);
        lemma_le_round_trip(rec.1[j] as nat, 4);
        lemma_le_bytes_len(rec.1[0] as nat, 4);
        lemma_le_bytes_len(rec.1[1] as nat, 4);
        lemma_le_bytes_len(rec.1[2] as nat, 4);
        lemma_le_bytes_len(rec.1[3] as nat, 4);
        lemma_le_bytes_len(rec.1[4] as nat, 4);
        assert(s.subrange(8 + 4 * j, 12 + 4 * j) =~= le_bytes(rec.1[j] as nat, 4));
    }
    lemma_le_bytes_len(rec.1[0] as nat, 4);
    lemma_le_bytes_len(rec.1[1] as nat, 4);
    lemma_le_bytes_len(rec.1[2] as nat, 4);
    lemma_le_bytes_len(rec.1[3] as nat, 4);
    lemma_le_bytes_len(rec.1[4] as nat, 4);
}

pub proof fn lemma_encoded_layout(recs: Seq<Record>)
    ensures
        encoded(recs).len() == 28 * recs.len(),
        forall|i: int|
            0 <= i < recs.len() ==> encoded(recs).subrange(28 * i, 28 * i + 28) == record_bytes(
                #[trigger] recs[i],
            ),
    decreases recs.len(),
{
    if recs.len() > 0 {
        let pre = recs.drop_last();
        lemma_encoded_layout(pre);
        lemma_record_bytes(recs.last());
        let e = encoded(recs);
        assert forall|i: int| 0 <= i < recs.len() implies e.subrange(28 * i, 28 * i + 28)
            == record_bytes(#[trigger] recs[i]) by {
            if i < pre.len() {
                assert(pre[i] == recs[i]);
                assert(e.subrange(28 * i, 28 * i + 28) =~= encoded(pre).subrange(28 * i, 28 * i + 28));
            } else {
                assert(e.subrange(28 * i, 28 * i + 28) =~= record_bytes(recs.last()));
            }
        }
    }
}

/// Writing a table and reading it back gives the same records, in the same
/// order, bit for bit.
pub proof fn lemma_table_round_trip(recs: Seq<Record>, read: Seq<Record>)
    requires
        decodes_to(encoded(recs), read),
    ensures
        read == recs,
{
    lemma_encoded_layout(recs);
    let e = encoded(recs);
    assert forall|i: int| 0 <= i < recs.len() implies #[trigger] read[i] == recs[i] by {
        let r = recs[i];
        let sub = e.subrange(28 * i, 28 * i + 28);
        assert(sub == record_bytes(r));
        lemma_record_bytes(r);
        assert(e.subrange(28 * i, 28 * i + 8) =~= sub.subrange(0, 8));
        assert(read[i].0 as nat == key_at(e, 28 * i));
        assert forall|j: int| 0 <= j < 5 implies read[i].1[j] == r.1[j] by {
            assert(e.subrange(28 * i + 8 + 4 * j, 28 * i + 12 + 4 * j) =~= sub.subrange(
                8 + 4 * j,
                12 + 4 * j,
            ));
            assert(value_at(sub, 0, j) == r.1[j] as nat);
            assert(value_at(e, 28 * i, j) == value_at(sub, 0, j));
            assert(read[i].1[j] as nat == value_at(e, 28 * i, j));
        }
        assert(read[i].1@ =~= r.1@);
    }
    assert(read =~= recs);
}

pub proof fn lemma_pow256_small(k: nat)
    requires
        k <= 8,
    ensures
        k <= 7 ==> pow256(k) <= 0x100000000000000,
        k == 4 ==> pow256(k) == 0x100000000,
        k == 8 ==> pow256(k) == 0x10000000000000000,
{
    reveal_with_fuel(pow256, 9);
    if k == 0 {
    } else if k == 1 {
    } else if k == 2 {
    } else if k == 3 {
    } else if k == 4 {
    } else if k == 5 {
    } else if k == 6 {
    } else if k == 7 {
    } else {
    }
}

/// Appends the `n` low bytes of `v`, least significant first.
fn push_le(out: &mut Vec<u8>, v: u64, n: usize)
    requires
        n <= 8,
    ensures
        final(out)@ == old(out)@ + le_bytes(v as nat, n as nat),
{
    let mut cur: u64 = v;
    let mut i: usize = 0;
    while i < n
        invariant
            i <= n,
            out@ + le_bytes(cur as nat, (n - i) as nat) == old(out)@ + le_bytes(v as nat, n as nat),
        decreases n - i,
    {
        let ghost before = out@;
        let ghost rest = le_bytes((cur / 256) as nat, (n - i - 1) as nat);
        out.push((cur % 256) as u8);
        proof {
            assert(le_bytes(cur as nat, (n - i) as nat) == seq![(cur as nat % 256) as u8] + rest);
            assert(out@ + rest =~= before + (seq![(cur as nat % 256) as u8] + rest));
        }
        cur = cur / 256;
        i = i + 1;
    }
    proof {
        assert(out@ + le_bytes(cur as nat, 0) =~= out@);
    }
}

/// Reads the little-endian number in bytes `start .. start + n`.
fn read_le(bytes: &Vec<u8>, start: usize, n: usize) -> (r: u64)
    requires
        n <= 8,
        start + n <= bytes.len(),
    ensures
        r as nat == le_value(bytes@.subrange(start as int, start + n)),
        (r as nat) < pow256(n as nat),
{
    let mut acc: u64 = 0;
    let mut j: usize = n;
    while j > 0
        invariant
            j <= n <= 8,
            start + n <= bytes.len(),
            acc as nat == le_value(bytes@.subrange(start + j, start + n)),
        decreases j,
    {
        proof {
            lemma_le_value_bound(bytes@.subrange(start + j, start + n));
            lemma_pow256_small((n - j) as nat);
        }
        acc = acc * 256 + bytes[start + j - 1] as u64;
        proof {
            let s = bytes@.subrange(start + j - 1, start + n);
            assert(s.drop_first() =~= bytes@.subrange(start + j, start + n));
        }
        j = j - 1;
    }
    proof {
        lemma_le_value_bound(bytes@.subrange(start as int, start + n));
    }
    acc
}

/// The bytes of a table, one record after another.
pub fn encode_table(entries: &Vec<Record>) -> (r: Vec<u8>)
    ensures
        r@ == encoded(entries@),
{
    let mut out: Vec<u8> = Vec::new();
    let mut i: usize = 0;
    while i < entries.len()
        invariant
            i <= entries.len(),
            out@ == encoded(entries@.take(i as int)),
        decreases entries.len() - i,
    {
        let ghost before = out@;
        let (key, row) = entries[i];
        push_le(&mut out, key, 8);
        push_le(&mut out, row[0] as u64, 4);
        push_le(&mut out, row[1] as u64, 4);
        push_le(&mut out, row[2] as u64, 4);
        push_le(&mut out, row[3] as u64, 4);
        push_le(&mut out, row[4] as u64, 4);
        proof {
            let pre = entries@.take(i as int + 1);
            assert(pre.drop_last() =~= entries@.take(i as int));
            assert(pre.last() == entries@[i as int]);
            assert(out@ =~= before + record_bytes(entries@[i as int]));
        }
        i = i + 1;
    }
    proof {
        assert(entries@.take(entries.len() as int) =~= entries@);
    }
    out
}

/// The whole records of `bytes`, in order; a trailing partial record is
/// dropped.
pub fn decode_table(bytes: &Vec<u8>) -> (r: Vec<Record>)
    ensures
        decodes_to(bytes@, r@),
{
    let mut out: Vec<Record> = Vec::new();
    let mut pos: usize = 0;
    proof {
        lemma_pow256_small(4);
        lemma_pow256_small(8);
    }
    while bytes.len() - pos >= RECORD_LEN
        invariant
            pos == 28 * out.len(),
            pos <= bytes.len(),
            pow256(4) == 0x100000000,
            pow256(8) == 0x10000000000000000,
            forall|i: int|
                0 <= i < out.len() ==> {
                    &&& #[trigger] out@[i].0 as nat == key_at(bytes@, 28 * i)
                    &&& forall|j: int|
                        0 <= j < 5 ==> out@[i].1[j] as nat == value_at(bytes@, 28 * i, j)
                },
        decreases bytes.len() - pos,
    {
        let key = read_le(bytes, pos, 8);
        let w0 = read_le(bytes, pos + 8, 4) as u32;
        let w1 = read_le(bytes, pos + 12, 4) as u32;
        let w2 = read_le(bytes, pos + 16, 4) as u32;
        let w3 = read_le(bytes, pos + 20, 4) as u32;
        let w4 = read_le(bytes, pos + 24, 4) as u32;
        let row: [u32; 5] = [w0, w1, w2, w3, w4];
        let ghost n = out.len() as int;
        out.push((key, row));
        proof {
            assert(row@ =~= seq![w0, w1, w2, w3, w4]);
            assert forall|j: int| 0 <= j < 5 implies out@[n].1[j] as nat == value_at(bytes@, 28 * n, j) by {
                if j == 0 {
                } else if j == 1 {
                } else if j == 2 {
                } else if j == 3 {
                } else {
                }
            }
        }
        pos = pos + RECORD_LEN;
    }
    proof {
        let len = bytes.len() as int;
        let k = out.len() as int;
        assert(k == len / 28) by (nonlinear_arith)
            requires
                28 * k <= len < 28 * k + 28,
        ;
        assert(decodes_to(bytes@, out@));
    }
    out
}

} // verus!
