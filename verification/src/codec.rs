//! Packed binary form of cell lists: each cell as its stable integer
//! identifier in eight little-endian bytes.

use vstd::prelude::*;

use crate::cell::{cell_of_level_index, law_level_index_round_trip, level_index, CellId, CellView};
use crate::error::{Error, Result};
use crate::numbering::resolution_offset;
use crate::text::decimal;

verus! {

/// The value of little-endian bytes.
pub open spec fn le_value(bytes: Seq<u8>) -> nat
    decreases bytes.len(),
{
    if bytes.len() == 0 {
        0
    } else {
        bytes[0] as nat + 256 * le_value(bytes.drop_first())
    }
}

/// The `count` least significant bytes of `value`, little-endian.
pub open spec fn le_bytes(value: nat, count: nat) -> Seq<u8>
    decreases count,
{
    if count == 0 {
        Seq::empty()
    } else {
        seq![(value % 256) as u8] + le_bytes(value / 256, (count - 1) as nat)
    }
}

/// `256` raised to the power `n`.
pub open spec fn pow256(n: nat) -> nat
    decreases n,
{
    if n == 0 {
        1
    } else {
        256 * pow256((n - 1) as nat)
    }
}

/// The `i`-th group of eight bytes.
pub open spec fn chunk(data: Seq<u8>, i: int) -> Seq<u8> {
    data.subrange(8 * i, 8 * i + 8)
}

/// The cell stored in the `i`-th group of eight bytes.
pub open spec fn stored_value(data: Seq<u8>, i: int) -> nat {
    le_value(chunk(data, i))
}

/// Whether the `i`-th stored value names a cell.
pub open spec fn stores_cell(data: Seq<u8>, i: int) -> bool {
    stored_value(data, i) < resolution_offset(16)
}

/// The value of bytes is below `256` to the number of bytes.
pub proof fn lemma_le_value_bound(bytes: Seq<u8>)
    ensures
        le_value(bytes) < pow256(bytes.len()),
    decreases bytes.len(),
{
    if bytes.len() > 0 {
        lemma_le_value_bound(bytes.drop_first());
        let rest = le_value(bytes.drop_first());
        let p = pow256((bytes.len() - 1) as nat);
        assert(bytes[0] as nat + 256 * rest < 256 * p) by (nonlinear_arith)
            requires
                rest < p,
                bytes[0] < 256,
        ;
    }
}

/// Writing a value in bytes and reading them back gives the value.
pub proof fn law_bytes_round_trip(value: nat, count: nat)
    requires
        value < pow256(count),
    ensures
        le_bytes(value, count).len() == count,
        le_value(le_bytes(value, count)) == value,
    decreases count,
{
    if count > 0 {
        let p = pow256((count - 1) as nat);
        assert(value / 256 < p) by (nonlinear_arith)
            requires
                value < 256 * p,
        ;
        law_bytes_round_trip(value / 256, (count - 1) as nat);
        let b = le_bytes(value, count);
        assert(b.drop_first() =~= le_bytes(value / 256, (count - 1) as nat));
        assert(value == value % 256 + 256 * (value / 256)) by (nonlinear_arith);
    }
}

/// `256` to the eighth power is `2^64`.
proof fn lemma_pow256_eight()
    ensures
        pow256(8) == 0x1_0000_0000_0000_0000,
{
    reveal_with_fuel(pow256, 9);
}

/// The eight little-endian bytes of every cell's stable integer identifier,
/// one cell after another.
pub fn encode_cells(cells: &[CellId]) -> (r: Vec<u8>)
    requires
        8 * cells@.len() <= usize::MAX,
    ensures
        r@.len() == 8 * cells@.len(),
        forall|i: int|
            0 <= i < cells@.len() ==> #[trigger] chunk(r@, i) == le_bytes(
                level_index(cells@[i]@.0, cells@[i]@.1),
                8,
            ),
{
    let mut out: Vec<u8> = Vec::new();
    let mut i: usize = 0;
    while i < cells.len()
        invariant
            i <= cells@.len(),
            out@.len() == 8 * i,
            forall|k: int|
                0 <= k < i ==> #[trigger] chunk(out@, k) == le_bytes(
                    level_index(cells@[k]@.0, cells@[k]@.1),
                    8,
                ),
        decreases cells@.len() - i,
    {
        let value = cells[i].to_u64();
        let ghost before = out@;
        let mut x = value;
        let mut j: usize = 0;
        while j < 8
            invariant
                j <= 8,
                out@.len() == before.len() + j,
                forall|m: int| 0 <= m < before.len() ==> out@[m] == before[m],
                out@.subrange(before.len() as int, out@.len() as int) + le_bytes(
                    x as nat,
                    (8 - j) as nat,
                ) == le_bytes(value as nat, 8),
            decreases 8 - j,
        {
            let ghost previous = out@;
            out.push((x % 256) as u8);
            proof {
                let tail = le_bytes(x as nat, (8 - j) as nat);
                assert(tail == seq![(x % 256) as u8] + le_bytes(
                    (x / 256) as nat,
                    (8 - j - 1) as nat,
                ));
                assert(out@.subrange(before.len() as int, out@.len() as int) =~= previous.subrange(
                    before.len() as int,
                    previous.len() as int,
                ).push((x % 256) as u8));
                assert(out@.subrange(before.len() as int, out@.len() as int) + le_bytes(
                    (x / 256) as nat,
                    (8 - j - 1) as nat,
                ) =~= previous.subrange(before.len() as int, previous.len() as int) + tail);
            }
            x = x / 256;
            j += 1;
        }
        proof {
            assert(le_bytes(x as nat, 0) =~= Seq::<u8>::empty());
            assert(chunk(out@, i as int) =~= out@.subrange(before.len() as int, out@.len() as int));
            assert forall|k: int| 0 <= k < i + 1 implies #[trigger] chunk(out@, k) == le_bytes(
                level_index(cells@[k]@.0, cells@[k]@.1),
                8,
            ) by {
                if k < i {
                    assert(chunk(out@, k) =~= chunk(before, k));
                }
            }
        }
        i += 1;
    }
    out
}

/// The value of the `i`-th group of eight bytes.
fn read_chunk(data: &[u8], i: usize) -> (r: u64)
    requires
        8 * i + 8 <= data@.len(),
    ensures
        r == stored_value(data@, i as int),
{
    let len = data.len();
    assert(8 * i + 8 <= len);
    let base = 8 * i;
    let ghost c = chunk(data@, i as int);
    let mut value: u64 = 0;
    let mut j: usize = 8;
    proof {
        assert(c.subrange(8, 8) =~= Seq::<u8>::empty());
    }
    while j > 0
        invariant
            j <= 8,
            base == 8 * i,
            base + 8 <= data@.len(),
            c == chunk(data@, i as int),
            value == le_value(c.subrange(j as int, 8)),
        decreases j,
    {
        let ghost rest = c.subrange(j as int, 8);
        proof {
            lemma_le_value_bound(rest);
            lemma_pow256_below(rest.len());
        }
        j -= 1;
        let byte = data[base + j];
        proof {
            let next = c.subrange(j as int, 8);
            assert(next.drop_first() =~= rest);
            assert(next[0] == byte);
            assert(value * 256 + byte < 0x1_0000_0000_0000_0000) by (nonlinear_arith)
                requires
                    value < pow256(rest.len()),
                    pow256(rest.len()) <= 0x100_0000_0000_0000,
                    byte < 256,
            ;
        }
        value = value * 256 + byte as u64;
    }
    proof {
        assert(c.subrange(0, 8) =~= c);
    }
    value
}

/// Powers of 256 below the eighth.
proof fn lemma_pow256_below(n: nat)
    requires
        n <= 7,
    ensures
        pow256(n) <= 0x100_0000_0000_0000,
{
    reveal_with_fuel(pow256, 8);
}

/// Read cells from groups of eight little-endian bytes, ignoring a trailing
/// incomplete group. The first group that names no cell is refused.
pub fn decode_cells(data: &[u8]) -> (r: Result<Vec<CellId>>)
    ensures
        (forall|i: int| 0 <= i < data@.len() / 8 ==> #[trigger] stores_cell(data@, i)) ==> (r matches Ok(
            cells,
        ) && cells@.len() == data@.len() / 8 && forall|i: int|
            0 <= i < cells@.len() ==> #[trigger] cells@[i]@ == cell_of_level_index(
                stored_value(data@, i),
            )),
        forall|k: int|
            0 <= k < data@.len() / 8 && !#[trigger] stores_cell(data@, k) && (forall|i: int|
                0 <= i < k ==> stores_cell(data@, i)) ==> (r matches Err(Error::InvalidCellId(m))
                && m@ == decimal(stored_value(data@, k))),
{
    let n = data.len() / 8;
    let mut cells: Vec<CellId> = Vec::new();
    let mut i: usize = 0;
    while i < n
        invariant
            n == data@.len() / 8,
            i <= n,
            cells@.len() == i,
            forall|k: int| 0 <= k < i ==> #[trigger] stores_cell(data@, k),
            forall|k: int|
                0 <= k < i ==> #[trigger] cells@[k]@ == cell_of_level_index(stored_value(data@, k)),
        decreases n - i,
    {
        let value = read_chunk(data, i);
        match CellId::from_u64(value) {
            Ok(c) => cells.push(c),
            Err(e) => {
                proof {
                    assert(!stores_cell(data@, i as int));
                    assert forall|k: int|
                        0 <= k < data@.len() / 8 && !#[trigger] stores_cell(data@, k) && (forall|
                            j: int,
                        | 0 <= j < k ==> stores_cell(data@, j)) implies k == i by {
                        if k > i {
                            assert(stores_cell(data@, i as int));
                        }
                    }
                }
                return Err(e);
            },
        }
        i += 1;
    }
    Ok(cells)
}

/// Reading back the bytes written for cells gives the cells.
pub proof fn law_codec_round_trip(cells: Seq<CellView>, data: Seq<u8>)
    requires
        forall|i: int| 0 <= i < cells.len() ==> crate::numbering::valid_digits(#[trigger] cells[i].1),
        data.len() == 8 * cells.len(),
        forall|i: int|
            0 <= i < cells.len() ==> #[trigger] chunk(data, i) == le_bytes(
                level_index(cells[i].0, cells[i].1),
                8,
            ),
    ensures
        data.len() / 8 == cells.len(),
        forall|i: int| 0 <= i < cells.len() ==> #[trigger] stores_cell(data, i),
        forall|i: int|
            0 <= i < cells.len() ==> #[trigger] cell_of_level_index(stored_value(data, i))
                == cells[i],
{
    assert forall|i: int| 0 <= i < cells.len() implies #[trigger] stored_value(data, i)
        == level_index(cells[i].0, cells[i].1) by {
        law_level_index_round_trip(cells[i].0, cells[i].1);
        crate::numbering::lemma_resolution_offset_total();
        lemma_pow256_eight();
        law_bytes_round_trip(level_index(cells[i].0, cells[i].1), 8);
    }
    assert forall|i: int| 0 <= i < cells.len() implies #[trigger] stores_cell(data, i) by {
        assert(stored_value(data, i) == level_index(cells[i].0, cells[i].1));
        law_level_index_round_trip(cells[i].0, cells[i].1);
    }
    assert forall|i: int| 0 <= i < cells.len() implies #[trigger] cell_of_level_index(
        stored_value(data, i),
    ) == cells[i] by {
        assert(stored_value(data, i) == level_index(cells[i].0, cells[i].1));
        law_level_index_round_trip(cells[i].0, cells[i].1);
    }
}

} // verus!
