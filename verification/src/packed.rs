//! The packed compute table: trades in fixed-width records, clustered by
//! `(client, symbol)` and in time order within each partition.
//!
//! One buffer holds, in this order, a header, the partitions' clients, their
//! symbols, the prefix offsets of their records, and the records. Every value
//! is found from its place alone. The records start at a multiple of 4096.

use vstd::prelude::*;
use crate::bytes::{
    bits_of, laid, le, of_bits, push_i32, push_le, read_i32, read_u32, read_u64, un_le,
};
use crate::schema::Trade;

verus! {

/// Microseconds in a day.
pub const MICROS_PER_DAY: i64 = 86_400_000_000;

/// Bytes in a record.
pub const RECORD_BYTES: usize = 12;

/// Bytes in the header.
pub const HEADER_BYTES: usize = 80;

/// Alignment of the record section.
pub const RECORD_ALIGN: u64 = 4096;

/// The bits of the tick size, 0.05, as the header carries it.
pub const TICK_BITS: u64 = 0x3fa9_9999_9999_999a;

/// One trade, packed for the FIFO fold: twelve bytes, no padding.
///
/// The timestamp is not stored. Records stand in time order, so their position
/// is their time.
#[derive(Clone, Copy, Debug, PartialEq, Eq, Structural)]
pub struct PackedTrade {
    /// `+qty` for a buy, `-qty` for a sell.
    pub signed_qty: i32,
    /// Price in whole ticks.
    pub price_ticks: i32,
    /// Days since the Unix epoch.
    pub day: i32,
}

/// The 32 bits of an unsigned number, read as a signed one.
pub open spec fn as_signed(q: u32) -> int {
    of_bits(q as int)
}

/// The day of a timestamp: whole days since the epoch, rounded toward it.
pub open spec fn day_of(ts_micros: int) -> int {
    if ts_micros >= 0 {
        ts_micros / (MICROS_PER_DAY as int)
    } else {
        -((-ts_micros) / (MICROS_PER_DAY as int))
    }
}

/// The record of a tradebook row.
pub open spec fn packed_of(t: Trade) -> PackedTrade {
    PackedTrade {
        signed_qty: (t.side * as_signed(t.quantity)) as i32,
        price_ticks: t.price_ticks,
        day: day_of(t.ts_micros as int) as i32,
    }
}

/// The row's signed quantity fits a record.
pub open spec fn packable(t: Trade) -> bool {
    i32::MIN <= t.side * as_signed(t.quantity) <= i32::MAX
}

impl PackedTrade {
    pub fn is_buy(&self) -> (r: bool)
        ensures
            r == (self.signed_qty > 0),
    {
        self.signed_qty > 0
    }

    /// Shares traded.
    pub fn qty(&self) -> (r: i64)
        requires
            self.signed_qty != i32::MIN,
        ensures
            r == (if self.signed_qty < 0 {
                -self.signed_qty
            } else {
                self.signed_qty as int
            }),
    {
        if self.signed_qty < 0 {
            -(self.signed_qty as i64)
        } else {
            self.signed_qty as i64
        }
    }

    /// Whether a tradebook row fits a record.
    pub fn fits_record(t: &Trade) -> (r: bool)
        ensures
            r == packable(*t),
            t.quantity < 0x8000_0000 ==> r == (-0x8000_0000 <= t.side * t.quantity <= 0x7fff_ffff),
            t.quantity >= 0x8000_0000 ==> r == (-0x8000_0000 <= t.side * (t.quantity
                - 0x1_0000_0000) <= 0x7fff_ffff),
    {
        let q: i64 = if t.quantity < 0x8000_0000 {
            t.quantity as i64
        } else {
            t.quantity as i64 - 0x1_0000_0000
        };
        let side: i8 = t.side;
        assert(-0x80_0000_0000 <= side * q <= 0x80_0000_0000) by (nonlinear_arith)
            requires
                -128 <= side <= 127,
                -0x8000_0000 <= q <= 0x7fff_ffff,
        ;
        let signed: i64 = side as i64 * q;
        -0x8000_0000 <= signed && signed <= 0x7fff_ffff
    }

    /// The record of a tradebook row.
    pub fn from_trade(t: &Trade) -> (r: Self)
        requires
            packable(*t),
        ensures
            r == packed_of(*t),
            r.price_ticks == t.price_ticks,
            t.quantity < 0x8000_0000 ==> r.signed_qty == t.side * t.quantity,
            t.quantity >= 0x8000_0000 ==> r.signed_qty == t.side * (t.quantity - 0x1_0000_0000),
            t.ts_micros >= 0 ==> r.day * 86_400_000_000 <= t.ts_micros < (r.day + 1)
                * 86_400_000_000,
            t.ts_micros < 0 ==> (r.day - 1) * 86_400_000_000 < t.ts_micros <= r.day
                * 86_400_000_000,
    {
        let q: i64 = if t.quantity < 0x8000_0000 {
            t.quantity as i64
        } else {
            t.quantity as i64 - 0x1_0000_0000
        };
        let side: i8 = t.side;
        assert(-0x80_0000_0000 <= side * q <= 0x80_0000_0000) by (nonlinear_arith)
            requires
                -128 <= side <= 127,
                -0x8000_0000 <= q <= 0x7fff_ffff,
        ;
        let signed: i64 = side as i64 * q;
        assert(-0x7fff_ffff <= day_of(t.ts_micros as int) <= 0x7fff_ffff);
        PackedTrade {
            signed_qty: signed as i32,
            price_ticks: t.price_ticks,
            day: (t.ts_micros / MICROS_PER_DAY) as i32,
        }
    }
}

// ---------------------------------------------------------------------------
// Layout
// ---------------------------------------------------------------------------

/// The least multiple of `a` that is not below `x`.
pub open spec fn aligned(x: int, a: int) -> int {
    (x + a - 1) / a * a
}

/// Where the sections of a buffer start, and how long it is.
pub struct Layout {
    pub client: int,
    pub symbol: int,
    pub offset: int,
    pub records: int,
    pub len: int,
}

/// The layout of `n_parts` partitions with `n_rows` records.
pub open spec fn layout(n_parts: int, n_rows: int) -> Layout {
    let client = aligned(HEADER_BYTES as int, 8);
    let symbol = aligned(client + n_parts * 8, 8);
    let offset = aligned(symbol + n_parts * 4, 8);
    let records = aligned(offset + (n_parts + 1) * 8, RECORD_ALIGN as int);
    Layout { client, symbol, offset, records, len: records + n_rows * RECORD_BYTES }
}

pub open spec fn magic() -> Seq<u8> {
    seq![0x46u8, 0x49u8, 0x46u8, 0x4fu8, 0x50u8, 0x4bu8, 0x30u8, 0x31u8]
}

/// The header of a buffer.
pub open spec fn header_image(n_parts: int, n_rows: int) -> Seq<u8> {
    let l = layout(n_parts, n_rows);
    magic() + le(1, 4) + le(0, 4) + le(n_rows, 8) + le(n_parts, 8) + le(TICK_BITS as int, 8) + le(
        l.client,
        8,
    ) + le(l.symbol, 8) + le(l.offset, 8) + le(l.records, 8) + le(l.len, 8)
}

pub open spec fn zero_bytes(k: int) -> Seq<u8> {
    Seq::new(
        if k > 0 {
            k as nat
        } else {
            0
        },
        |i: int| 0u8,
    )
}

/// `s` filled up with zero bytes to length `n`.
pub open spec fn filled(s: Seq<u8>, n: int) -> Seq<u8> {
    s + zero_bytes(n - s.len())
}

pub open spec fn u64_image() -> spec_fn(u64) -> Seq<u8> {
    |x: u64| le(x as int, 8)
}

pub open spec fn u32_image() -> spec_fn(u32) -> Seq<u8> {
    |x: u32| le(x as int, 4)
}

/// A record's twelve bytes.
pub open spec fn record_image() -> spec_fn(PackedTrade) -> Seq<u8> {
    |r: PackedTrade| le(bits_of(r.signed_qty), 4) + le(bits_of(r.price_ticks), 4) + le(
        bits_of(r.day),
        4,
    )
}

/// Total number of records that the offsets speak of.
pub open spec fn rows_of(offsets: Seq<u64>) -> int {
    if offsets.len() == 0 {
        0
    } else {
        offsets.last() as int
    }
}

/// Everything before the records.
pub open spec fn prefix_image(clients: Seq<u64>, symbols: Seq<u32>, offsets: Seq<u64>) -> Seq<u8> {
    let n = clients.len() as int;
    let l = layout(n, rows_of(offsets));
    let a = filled(header_image(n, rows_of(offsets)), l.client) + laid(clients, u64_image());
    let b = filled(a, l.symbol) + laid(symbols, u32_image());
    let c = filled(b, l.offset) + laid(offsets, u64_image());
    filled(c, l.records)
}

/// A whole buffer.
pub open spec fn table_image(
    clients: Seq<u64>,
    symbols: Seq<u32>,
    offsets: Seq<u64>,
    records: Seq<PackedTrade>,
) -> Seq<u8> {
    prefix_image(clients, symbols, offsets) + laid(records, record_image())
}

/// The partition arrays have the lengths that the layout gives them.
pub open spec fn arrays_match(clients: Seq<u64>, symbols: Seq<u32>, offsets: Seq<u64>) -> bool {
    &&& symbols.len() == clients.len()
    &&& offsets.len() == clients.len() + 1
}

fn align_up(x: u64, a: u64) -> (r: u64)
    requires
        a > 0,
        x + a - 1 <= u64::MAX,
    ensures
        r == aligned(x as int, a as int),
{
    let t: u64 = (x + (a - 1)) / a;
    assert(t * a <= x + a - 1) by (nonlinear_arith)
        requires
            a > 0,
            t == (x + a - 1) / (a as int),
    ;
    assert((x + (a - 1)) / a as int == t);
    t * a
}

proof fn lemma_aligned(x: int, a: int)
    requires
        a > 0,
        x >= 0,
    ensures
        x <= aligned(x, a) < x + a,
        aligned(x, a) % a == 0,
{
    assert(x <= aligned(x, a) < x + a && aligned(x, a) % a == 0) by (nonlinear_arith)
        requires
            a > 0,
            x >= 0,
            aligned(x, a) == (x + a - 1) / a * a,
    ;
}

proof fn lemma_layout(n_parts: int, n_rows: int)
    requires
        n_parts >= 0,
        n_rows >= 0,
    ensures
        ({
            let l = layout(n_parts, n_rows);
            &&& l.client == HEADER_BYTES
            &&& l.symbol == l.client + n_parts * 8
            &&& l.symbol + n_parts * 4 <= l.offset < l.symbol + n_parts * 4 + 8
            &&& l.offset % 8 == 0
            &&& l.offset + (n_parts + 1) * 8 <= l.records < l.offset + (n_parts + 1) * 8 + 4096
            &&& l.records % 4096 == 0
            &&& l.len == l.records + n_rows * 12
        }),
{
    let l = layout(n_parts, n_rows);
    lemma_aligned(80, 8);
    lemma_aligned(80 + n_parts * 8, 8);
    lemma_aligned(l.symbol + n_parts * 4, 8);
    lemma_aligned(l.offset + (n_parts + 1) * 8, 4096);
}

/// Append zero bytes up to position `target`.
fn pad_to(w: &mut Vec<u8>, pos: u64, target: u64)
    ensures
        final(w)@ == old(w)@ + zero_bytes(target - pos),
{
    let mut at: u64 = pos;
    while at < target
        invariant
            pos <= at,
            pos < target ==> at <= target,
            pos >= target ==> at == pos,
            w@ == old(w)@ + zero_bytes(at - pos),
        decreases target - at,
    {
        w.push(0);
        at = at + 1;
        assert(w@ =~= old(w)@ + zero_bytes(at - pos));
    }
    assert(w@ =~= old(w)@ + zero_bytes(target - pos));
}

fn push_u64s(w: &mut Vec<u8>, items: &[u64])
    ensures
        final(w)@ == old(w)@ + laid(items@, u64_image()),
{
    let mut i: usize = 0;
    assert(items@.take(0) =~= Seq::empty());
    assert(w@ + laid(items@.take(0), u64_image()) =~= w@);
    while i < items.len()
        invariant
            i <= items@.len(),
            w@ == old(w)@ + laid(items@.take(i as int), u64_image()),
        decreases items@.len() - i,
    {
        assert(items@.take(i + 1).drop_last() =~= items@.take(i as int));
        push_le(w, items[i], 8);
        i = i + 1;
        assert(w@ =~= old(w)@ + laid(items@.take(i as int), u64_image()));
    }
    assert(items@.take(items@.len() as int) =~= items@);
}

fn push_u32s(w: &mut Vec<u8>, items: &[u32])
    ensures
        final(w)@ == old(w)@ + laid(items@, u32_image()),
{
    let mut i: usize = 0;
    assert(items@.take(0) =~= Seq::empty());
    assert(w@ + laid(items@.take(0), u32_image()) =~= w@);
    while i < items.len()
        invariant
            i <= items@.len(),
            w@ == old(w)@ + laid(items@.take(i as int), u32_image()),
        decreases items@.len() - i,
    {
        assert(items@.take(i + 1).drop_last() =~= items@.take(i as int));
        push_le(w, items[i] as u64, 4);
        i = i + 1;
        assert(w@ =~= old(w)@ + laid(items@.take(i as int), u32_image()));
    }
    assert(items@.take(items@.len() as int) =~= items@);
}

fn push_records(w: &mut Vec<u8>, items: &[PackedTrade])
    ensures
        final(w)@ == old(w)@ + laid(items@, record_image()),
{
    let mut i: usize = 0;
    assert(items@.take(0) =~= Seq::empty());
    assert(w@ + laid(items@.take(0), record_image()) =~= w@);
    while i < items.len()
        invariant
            i <= items@.len(),
            w@ == old(w)@ + laid(items@.take(i as int), record_image()),
        decreases items@.len() - i,
    {
        assert(items@.take(i + 1).drop_last() =~= items@.take(i as int));
        push_i32(w, items[i].signed_qty);
        push_i32(w, items[i].price_ticks);
        push_i32(w, items[i].day);
        i = i + 1;
        assert(w@ =~= old(w)@ + laid(items@.take(i as int), record_image()));
    }
    assert(items@.take(items@.len() as int) =~= items@);
}

/// Append a header.
fn push_header(
    w: &mut Vec<u8>,
    n_rows: u64,
    n_parts: u64,
    off_part_client: u64,
    off_part_symbol: u64,
    off_part_offset: u64,
    off_records: u64,
    file_len: u64,
)
    requires
        ({
            let l = layout(n_parts as int, n_rows as int);
            &&& off_part_client == l.client
            &&& off_part_symbol == l.symbol
            &&& off_part_offset == l.offset
            &&& off_records == l.records
            &&& file_len == l.len
        }),
    ensures
        final(w)@ == old(w)@ + header_image(n_parts as int, n_rows as int),
{
    let ghost before = w@;
    w.push(0x46);
    w.push(0x49);
    w.push(0x46);
    w.push(0x4f);
    w.push(0x50);
    w.push(0x4b);
    w.push(0x30);
    w.push(0x31);
    assert(w@ =~= before + magic());
    push_le(w, 1, 4);
    push_le(w, 0, 4);
    push_le(w, n_rows, 8);
    push_le(w, n_parts, 8);
    push_le(w, TICK_BITS, 8);
    push_le(w, off_part_client, 8);
    push_le(w, off_part_symbol, 8);
    push_le(w, off_part_offset, 8);
    push_le(w, off_records, 8);
    push_le(w, file_len, 8);
    assert(w@ =~= before + header_image(n_parts as int, n_rows as int));
}

/// Append the header and the partition arrays, up to where the records start.
/// The buffer is complete once the records themselves are appended.
#[verifier::spinoff_prover]
#[verifier::rlimit(30)]
pub fn serialize_prefix(
    part_client: &[u64],
    part_symbol: &[u32],
    part_offset: &[u64],
    w: &mut Vec<u8>,
)
    requires
        arrays_match(part_client@, part_symbol@, part_offset@),
        layout(part_client@.len() as int, rows_of(part_offset@)).len <= u64::MAX,
    ensures
        final(w)@ == old(w)@ + prefix_image(part_client@, part_symbol@, part_offset@),
{
    let ghost before = w@;
    let n_rows: u64 = part_offset[part_offset.len() - 1];
    let n_parts: u64 = part_client.len() as u64;
    let ghost l = layout(n_parts as int, n_rows as int);
    proof {
        lemma_layout(n_parts as int, n_rows as int);
        lemma_image_lens(part_client@, part_symbol@, part_offset@);
    }
    let off_part_client: u64 = align_up(HEADER_BYTES as u64, 8);
    let off_part_symbol: u64 = align_up(off_part_client + n_parts * 8, 8);
    let off_part_offset: u64 = align_up(off_part_symbol + n_parts * 4, 8);
    let off_records: u64 = align_up(off_part_offset + (n_parts + 1) * 8, RECORD_ALIGN);
    let file_len: u64 = off_records + n_rows * RECORD_BYTES as u64;
    assert(off_part_client == l.client && off_part_symbol == l.symbol && off_part_offset == l.offset);
    assert(off_records == l.records && file_len == l.len);

    push_header(
        w,
        n_rows,
        n_parts,
        off_part_client,
        off_part_symbol,
        off_part_offset,
        off_records,
        file_len,
    );
    let ghost header = header_image(n_parts as int, n_rows as int);
    let mut pos: u64 = HEADER_BYTES as u64;
    pad_to(w, pos, off_part_client);
    push_u64s(w, part_client);
    let ghost a = filled(header, l.client) + laid(part_client@, u64_image());
    assert(w@ =~= before + a);
    pos = off_part_client + n_parts * 8;
    pad_to(w, pos, off_part_symbol);
    push_u32s(w, part_symbol);
    let ghost b = filled(a, l.symbol) + laid(part_symbol@, u32_image());
    assert(w@ =~= before + b);
    pos = off_part_symbol + n_parts * 4;
    pad_to(w, pos, off_part_offset);
    push_u64s(w, part_offset);
    let ghost c = filled(b, l.offset) + laid(part_offset@, u64_image());
    assert(w@ =~= before + c);
    pos = off_part_offset + (n_parts + 1) * 8;
    pad_to(w, pos, off_records);
    assert(w@ =~= before + prefix_image(part_client@, part_symbol@, part_offset@));
}

/// How long the pieces of a buffer are.
proof fn lemma_image_lens(clients: Seq<u64>, symbols: Seq<u32>, offsets: Seq<u64>)
    requires
        arrays_match(clients, symbols, offsets),
    ensures
        ({
            let n = clients.len() as int;
            &&& header_image(n, rows_of(offsets)).len() == HEADER_BYTES
            &&& laid(clients, u64_image()).len() == 8 * n
            &&& laid(symbols, u32_image()).len() == 4 * n
            &&& laid(offsets, u64_image()).len() == 8 * (n + 1)
        }),
{
    lemma_field_lens();
    crate::bytes::lemma_laid(clients, u64_image(), 8);
    crate::bytes::lemma_laid(symbols, u32_image(), 4);
    crate::bytes::lemma_laid(offsets, u64_image(), 8);
}

proof fn lemma_field_lens()
    ensures
        forall|n: int| (#[trigger] le(n, 4)).len() == 4,
        forall|n: int| (#[trigger] le(n, 8)).len() == 8,
{
    assert forall|n: int| (#[trigger] le(n, 4)).len() == 4 by {
        crate::bytes::lemma_le_len(n, 4);
    }
    assert forall|n: int| (#[trigger] le(n, 8)).len() == 8 by {
        crate::bytes::lemma_le_len(n, 8);
    }
}

/// Append a whole packed table.
pub fn serialize_packed(
    part_client: &[u64],
    part_symbol: &[u32],
    part_offset: &[u64],
    records: &[PackedTrade],
    w: &mut Vec<u8>,
)
    requires
        arrays_match(part_client@, part_symbol@, part_offset@),
        layout(part_client@.len() as int, rows_of(part_offset@)).len <= u64::MAX,
    ensures
        final(w)@ == old(w)@ + table_image(part_client@, part_symbol@, part_offset@, records@),
{
    let ghost before = w@;
    serialize_prefix(part_client, part_symbol, part_offset, w);
    push_records(w, records);
    assert(w@ =~= before + table_image(part_client@, part_symbol@, part_offset@, records@));
}

// ---------------------------------------------------------------------------
// Building
// ---------------------------------------------------------------------------

/// Gathers partitions in memory.
#[derive(Debug)]
pub struct PackedBuilder {
    pub records: Vec<PackedTrade>,
    pub part_client: Vec<u64>,
    pub part_symbol: Vec<u32>,
    /// Prefix offsets, one more than there are partitions.
    pub part_offset: Vec<u64>,
}

impl Default for PackedBuilder {
    fn default() -> (b: Self)
        ensures
            b.records@ == Seq::<PackedTrade>::empty(),
            b.part_client@ == Seq::<u64>::empty(),
            b.part_symbol@ == Seq::<u32>::empty(),
            b.part_offset@ == Seq::<u64>::empty(),
    {
        PackedBuilder {
            records: Vec::new(),
            part_client: Vec::new(),
            part_symbol: Vec::new(),
            part_offset: Vec::new(),
        }
    }
}

impl PackedBuilder {
    /// What has been gathered, as a table.
    pub open spec fn model(self) -> TableModel {
        TableModel {
            sound: true,
            n_rows: rows_of(self.part_offset@),
            n_parts: self.part_client@.len() as int,
            clients: self.part_client@,
            symbols: self.part_symbol@,
            offsets: self.part_offset@,
            records: self.records@,
        }
    }

    /// The partitions gathered lie one after the other and hold all records.
    pub open spec fn wf(self) -> bool {
        &&& arrays_match(self.part_client@, self.part_symbol@, self.part_offset@)
        &&& rows_of(self.part_offset@) == self.records@.len()
        &&& self.part_offset@[0] == 0
        &&& offsets_ascend(self.part_offset@)
    }

    pub fn new() -> (b: Self)
        ensures
            b.wf(),
            b.records@ == Seq::<PackedTrade>::empty(),
            b.part_client@ == Seq::<u64>::empty(),
            b.part_symbol@ == Seq::<u32>::empty(),
            b.part_offset@ == seq![0u64],
    {
        let mut b = PackedBuilder::default();
        b.part_offset.push(0);
        b
    }

    /// Append a whole partition, its records in time order. An empty one is
    /// skipped.
    pub fn push_partition(&mut self, client: u64, symbol: u32, recs: &[PackedTrade])
        ensures
            recs@.len() == 0 ==> *final(self) == *old(self),
            recs@.len() > 0 ==> {
                &&& final(self).part_client@ == old(self).part_client@.push(client)
                &&& final(self).part_symbol@ == old(self).part_symbol@.push(symbol)
                &&& final(self).records@ == old(self).records@ + recs@
                &&& final(self).part_offset@ == old(self).part_offset@.push(
                    (old(self).records@.len() + recs@.len()) as u64,
                )
            },
            old(self).wf() ==> final(self).wf(),
    {
        if recs.len() == 0 {
            return ;
        }
        self.part_client.push(client);
        self.part_symbol.push(symbol);
        self.records.extend_from_slice(recs);
        assert(self.records@ =~= old(self).records@ + recs@);
        let n: usize = self.records.len();
        self.part_offset.push(n as u64);
        proof {
            if old(self).wf() {
                let was = old(self).part_offset@;
                let now = self.part_offset@;
                assert(was[was.len() - 1] == old(self).records@.len());
                assert forall|i: int, j: int| 0 <= i <= j < now.len() implies now[i] <= now[j] by {
                    if j == now.len() - 1 && i < j {
                        assert(was[i] <= was[was.len() - 1]);
                    }
                }
            }
        }
    }

    pub fn n_parts(&self) -> (n: usize)
        ensures
            n == self.part_client@.len(),
    {
        self.part_client.len()
    }

    /// Append the table to `w`.
    pub fn write(&self, w: &mut Vec<u8>)
        requires
            arrays_match(self.part_client@, self.part_symbol@, self.part_offset@),
            layout(self.part_client@.len() as int, rows_of(self.part_offset@)).len <= u64::MAX,
        ensures
            final(w)@ == old(w)@ + table_image(
                self.part_client@,
                self.part_symbol@,
                self.part_offset@,
                self.records@,
            ),
    {
        serialize_packed(
            self.part_client.as_slice(),
            self.part_symbol.as_slice(),
            self.part_offset.as_slice(),
            self.records.as_slice(),
            w,
        );
    }
}

// ---------------------------------------------------------------------------
// Reading
// ---------------------------------------------------------------------------

/// Why a buffer is not a packed table.
#[derive(Clone, Copy, Debug, PartialEq, Eq, Structural)]
pub enum PackedError {
    /// Shorter than a header.
    TooSmall,
    /// Another format.
    BadMagic,
    /// Shorter than its header says.
    Truncated,
}

impl PackedError {
    pub fn message(&self) -> (r: &'static str)
        ensures
            r@ == (match *self {
                PackedError::TooSmall => "too small to be a packed table"@,
                PackedError::BadMagic => "bad magic — not a FIFOPK buffer"@,
                PackedError::Truncated => "truncated packed table"@,
            }),
    {
        match *self {
            PackedError::TooSmall => "too small to be a packed table",
            PackedError::BadMagic => "bad magic — not a FIFOPK buffer",
            PackedError::Truncated => "truncated packed table",
        }
    }
}

/// What a header says.
#[derive(Clone, Copy, Debug)]
struct Header {
    n_rows: u64,
    n_parts: u64,
    off_part_client: u64,
    off_part_symbol: u64,
    off_part_offset: u64,
    off_records: u64,
}

/// The eight-byte number at `at`.
pub open spec fn u64_at(b: Seq<u8>, at: int) -> int {
    un_le(b.subrange(at, at + 8))
}

/// The four-byte number at `at`.
pub open spec fn u32_at(b: Seq<u8>, at: int) -> int {
    un_le(b.subrange(at, at + 4))
}

/// The record at `at`.
pub open spec fn record_at(b: Seq<u8>, at: int) -> PackedTrade {
    PackedTrade {
        signed_qty: of_bits(u32_at(b, at)) as i32,
        price_ticks: of_bits(u32_at(b, at + 4)) as i32,
        day: of_bits(u32_at(b, at + 8)) as i32,
    }
}

/// What is wrong with the header of a buffer, if anything is.
pub open spec fn header_error(b: Seq<u8>) -> Option<PackedError> {
    if b.len() < HEADER_BYTES {
        Some(PackedError::TooSmall)
    } else if b.take(8) != magic() {
        Some(PackedError::BadMagic)
    } else if b.len() < u64_at(b, 72) {
        Some(PackedError::Truncated)
    } else {
        None
    }
}

/// `count` items of `width` bytes lie within `b` from `off` on, `off` being a
/// multiple of `align`.
pub open spec fn section_fits(b: Seq<u8>, off: int, count: int, width: int, align: int) -> bool {
    off % align == 0 && off + count * width <= b.len()
}

/// All sections that the header names lie within the buffer.
pub open spec fn sections_fit(b: Seq<u8>) -> bool {
    &&& section_fits(b, u64_at(b, 40), u64_at(b, 24), 8, 8)
    &&& section_fits(b, u64_at(b, 48), u64_at(b, 24), 4, 4)
    &&& section_fits(b, u64_at(b, 56), u64_at(b, 24) + 1, 8, 8)
    &&& section_fits(b, u64_at(b, 64), u64_at(b, 16), 12, 4)
}

/// What a buffer with fitting sections holds.
pub open spec fn decoded(b: Seq<u8>) -> TableModel {
    TableModel {
        sound: true,
        n_rows: u64_at(b, 16),
        n_parts: u64_at(b, 24),
        clients: Seq::new(
            u64_at(b, 24) as nat,
            |i: int| u64_at(b, u64_at(b, 40) + 8 * i) as u64,
        ),
        symbols: Seq::new(
            u64_at(b, 24) as nat,
            |i: int| u32_at(b, u64_at(b, 48) + 4 * i) as u32,
        ),
        offsets: Seq::new(
            (u64_at(b, 24) + 1) as nat,
            |i: int| u64_at(b, u64_at(b, 56) + 8 * i) as u64,
        ),
        records: Seq::new(u64_at(b, 16) as nat, |i: int| record_at(b, u64_at(b, 64) + 12 * i)),
    }
}

/// A packed table, as its partitions and records.
#[verifier::ext_equal]
pub struct TableModel {
    /// Whether the sections lie within the buffer.
    pub sound: bool,
    pub n_rows: int,
    pub n_parts: int,
    pub clients: Seq<u64>,
    pub symbols: Seq<u32>,
    pub offsets: Seq<u64>,
    pub records: Seq<PackedTrade>,
}

pub open spec fn offsets_ascend(offsets: Seq<u64>) -> bool {
    forall|i: int, j: int| 0 <= i <= j < offsets.len() ==> offsets[i] <= offsets[j]
}

impl TableModel {
    /// The arrays have the lengths that the header gives, and every partition
    /// lies within the records.
    pub open spec fn wf(self) -> bool {
        &&& self.sound
        &&& self.clients.len() == self.n_parts
        &&& self.symbols.len() == self.n_parts
        &&& self.offsets.len() == self.n_parts + 1
        &&& self.records.len() == self.n_rows
        &&& offsets_ascend(self.offsets)
        &&& self.offsets[self.n_parts] <= self.n_rows
    }

    /// The records of partition `p`.
    pub open spec fn part(self, p: int) -> Seq<PackedTrade> {
        self.records.subrange(self.offsets[p] as int, self.offsets[p + 1] as int)
    }

    /// Partition `a` stands for an earlier `(client, symbol)` than partition `b`.
    pub open spec fn key_before(self, a: int, b: int) -> bool {
        ||| self.clients[a] < self.clients[b]
        ||| self.clients[a] == self.clients[b] && self.symbols[a] < self.symbols[b]
    }

    /// Partitions stand in ascending order of `(client, symbol)`, each once.
    pub open spec fn sorted(self) -> bool {
        forall|a: int, b: int|
            0 <= a < b < self.n_parts ==> #[trigger] self.key_before(a, b)
    }

    /// No client and symbol have two partitions.
    pub open spec fn distinct(self) -> bool {
        forall|a: int, b: int|
            0 <= a < b < self.n_parts ==> (#[trigger] self.clients[a]) != (
            #[trigger] self.clients[b]) || self.symbols[a] != self.symbols[b]
    }

    /// Partition `p` belongs to this client and symbol.
    pub open spec fn is_part(self, p: int, client: u64, symbol: u32) -> bool {
        &&& 0 <= p < self.n_parts
        &&& self.clients[p] == client
        &&& self.symbols[p] == symbol
    }
}

/// A packed table, read from a buffer.
#[derive(Debug)]
pub struct PackedTable {
    sound: bool,
    n_rows: u64,
    n_parts: u64,
    records: Vec<PackedTrade>,
    part_client: Vec<u64>,
    part_symbol: Vec<u32>,
    part_offset: Vec<u64>,
}

impl View for PackedTable {
    type V = TableModel;

    closed spec fn view(&self) -> TableModel {
        TableModel {
            sound: self.sound,
            n_rows: self.n_rows as int,
            n_parts: self.n_parts as int,
            clients: self.part_client@,
            symbols: self.part_symbol@,
            offsets: self.part_offset@,
            records: self.records@,
        }
    }
}

fn is_magic(b: &[u8]) -> (r: bool)
    requires
        b@.len() >= 8,
    ensures
        r == (b@.take(8) == magic()),
{
    let r = b[0] == 0x46 && b[1] == 0x49 && b[2] == 0x46 && b[3] == 0x4f && b[4] == 0x50 && b[5]
        == 0x4b && b[6] == 0x30 && b[7] == 0x31;
    proof {
        let s = b@.take(8);
        if r {
            assert(s =~= magic());
        } else {
            assert(s[0] == b@[0] && s[1] == b@[1] && s[2] == b@[2] && s[3] == b@[3] && s[4] == b@[4]
                && s[5] == b@[5] && s[6] == b@[6] && s[7] == b@[7]);
        }
    }
    r
}

fn parse_header(b: &[u8]) -> (r: Result<Header, PackedError>)
    ensures
        match r {
            Ok(h) => {
                &&& header_error(b@) is None
                &&& h.n_rows == u64_at(b@, 16)
                &&& h.n_parts == u64_at(b@, 24)
                &&& h.off_part_client == u64_at(b@, 40)
                &&& h.off_part_symbol == u64_at(b@, 48)
                &&& h.off_part_offset == u64_at(b@, 56)
                &&& h.off_records == u64_at(b@, 64)
            },
            Err(e) => header_error(b@) == Some(e),
        },
{
    if b.len() < HEADER_BYTES {
        return Err(PackedError::TooSmall);
    }
    if !is_magic(b) {
        return Err(PackedError::BadMagic);
    }
    let file_len: u64 = read_u64(b, 72);
    if (b.len() as u64) < file_len {
        return Err(PackedError::Truncated);
    }
    Ok(
        Header {
            n_rows: read_u64(b, 16),
            n_parts: read_u64(b, 24),
            off_part_client: read_u64(b, 40),
            off_part_symbol: read_u64(b, 48),
            off_part_offset: read_u64(b, 56),
            off_records: read_u64(b, 64),
        },
    )
}

fn fits(b: &[u8], off: u64, count: u64, width: u64, align: u64) -> (r: bool)
    requires
        0 < width <= 16,
        align > 0,
    ensures
        r == section_fits(b@, off as int, count as int, width as int, align as int),
{
    let len: u64 = b.len() as u64;
    if off % align != 0 {
        return false;
    }
    if off > len {
        assert(count * width >= 0) by (nonlinear_arith)
            requires
                count >= 0,
                width > 0,
        ;
        return false;
    }
    let room: u64 = (len - off) / width;
    proof {
        let rem = len - off;
        assert(count <= room <==> count * width <= rem) by (nonlinear_arith)
            requires
                room == rem / (width as int),
                width > 0,
                rem >= 0,
                count >= 0,
        ;
    }
    count <= room
}

fn read_u64s(b: &[u8], off: usize, count: usize) -> (v: Vec<u64>)
    requires
        off + count * 8 <= b@.len(),
    ensures
        v@ == Seq::new(count as nat, |i: int| u64_at(b@, off + 8 * i) as u64),
{
    let len: usize = b.len();
    let mut v: Vec<u64> = Vec::new();
    let mut i: usize = 0;
    while i < count
        invariant
            i <= count,
            len == b@.len(),
            off + count * 8 <= len,
            v@ == Seq::new(i as nat, |i: int| u64_at(b@, off + 8 * i) as u64),
        decreases count - i,
    {
        v.push(read_u64(b, off + 8 * i));
        i = i + 1;
        assert(v@ =~= Seq::new(i as nat, |i: int| u64_at(b@, off + 8 * i) as u64));
    }
    v
}

fn read_u32s(b: &[u8], off: usize, count: usize) -> (v: Vec<u32>)
    requires
        off + count * 4 <= b@.len(),
    ensures
        v@ == Seq::new(count as nat, |i: int| u32_at(b@, off + 4 * i) as u32),
{
    let len: usize = b.len();
    let mut v: Vec<u32> = Vec::new();
    let mut i: usize = 0;
    while i < count
        invariant
            i <= count,
            len == b@.len(),
            off + count * 4 <= len,
            v@ == Seq::new(i as nat, |i: int| u32_at(b@, off + 4 * i) as u32),
        decreases count - i,
    {
        v.push(read_u32(b, off + 4 * i));
        i = i + 1;
        assert(v@ =~= Seq::new(i as nat, |i: int| u32_at(b@, off + 4 * i) as u32));
    }
    v
}

/// The records in `bytes`, from `off` on.
pub fn read_records(b: &[u8], off: usize, count: usize) -> (v: Vec<PackedTrade>)
    requires
        off + count * 12 <= b@.len(),
    ensures
        v@ == Seq::new(count as nat, |i: int| record_at(b@, off + 12 * i)),
{
    let len: usize = b.len();
    let mut v: Vec<PackedTrade> = Vec::new();
    let mut i: usize = 0;
    while i < count
        invariant
            i <= count,
            len == b@.len(),
            off + count * 12 <= len,
            v@ == Seq::new(i as nat, |i: int| record_at(b@, off + 12 * i)),
        decreases count - i,
    {
        let at: usize = off + 12 * i;
        let r = PackedTrade {
            signed_qty: read_i32(b, at),
            price_ticks: read_i32(b, at + 4),
            day: read_i32(b, at + 8),
        };
        v.push(r);
        i = i + 1;
        assert(v@ =~= Seq::new(i as nat, |i: int| record_at(b@, off + 12 * i)));
    }
    v
}

impl PackedTable {
    /// Read a packed table from a buffer.
    pub fn from_slice(b: &[u8]) -> (r: Result<Self, PackedError>)
        ensures
            match r {
                Ok(t) => {
                    &&& header_error(b@) is None
                    &&& t@.sound == sections_fit(b@)
                    &&& t@.n_rows == u64_at(b@, 16)
                    &&& t@.n_parts == u64_at(b@, 24)
                    &&& sections_fit(b@) ==> t@ == decoded(b@)
                },
                Err(e) => header_error(b@) == Some(e),
            },
    {
        let h = match parse_header(b) {
            Ok(h) => h,
            Err(e) => {
                return Err(e);
            },
        };
        let len: usize = b.len();
        let sound = h.n_parts < u64::MAX && fits(b, h.off_part_client, h.n_parts, 8, 8) && fits(
            b,
            h.off_part_symbol,
            h.n_parts,
            4,
            4,
        ) && fits(b, h.off_part_offset, h.n_parts + 1, 8, 8) && fits(
            b,
            h.off_records,
            h.n_rows,
            12,
            4,
        );
        if !sound {
            return Ok(
                PackedTable {
                    sound: false,
                    n_rows: h.n_rows,
                    n_parts: h.n_parts,
                    records: Vec::new(),
                    part_client: Vec::new(),
                    part_symbol: Vec::new(),
                    part_offset: Vec::new(),
                },
            );
        }
        let t = PackedTable {
            sound: true,
            n_rows: h.n_rows,
            n_parts: h.n_parts,
            records: read_records(b, h.off_records as usize, h.n_rows as usize),
            part_client: read_u64s(b, h.off_part_client as usize, h.n_parts as usize),
            part_symbol: read_u32s(b, h.off_part_symbol as usize, h.n_parts as usize),
            part_offset: read_u64s(b, h.off_part_offset as usize, h.n_parts as usize + 1),
        };
        assert(t@ =~= decoded(b@));
        Ok(t)
    }

    /// Read a packed table from a buffer of its own.
    pub fn from_bytes(bytes: Vec<u8>) -> (r: Result<Self, PackedError>)
        ensures
            match r {
                Ok(t) => {
                    &&& header_error(bytes@) is None
                    &&& t@.sound == sections_fit(bytes@)
                    &&& t@.n_rows == u64_at(bytes@, 16)
                    &&& t@.n_parts == u64_at(bytes@, 24)
                    &&& sections_fit(bytes@) ==> t@ == decoded(bytes@)
                },
                Err(e) => header_error(bytes@) == Some(e),
            },
    {
        Self::from_slice(bytes.as_slice())
    }

    pub fn n_rows(&self) -> (n: u64)
        ensures
            n == self@.n_rows,
    {
        self.n_rows
    }

    pub fn n_parts(&self) -> (n: u64)
        ensures
            n == self@.n_parts,
    {
        self.n_parts
    }

    pub fn records(&self) -> (r: &[PackedTrade])
        requires
            self@.sound,
        ensures
            r@ == self@.records,
    {
        self.records.as_slice()
    }

    pub fn part_client(&self) -> (r: &[u64])
        requires
            self@.sound,
        ensures
            r@ == self@.clients,
    {
        self.part_client.as_slice()
    }

    pub fn part_symbol(&self) -> (r: &[u32])
        requires
            self@.sound,
        ensures
            r@ == self@.symbols,
    {
        self.part_symbol.as_slice()
    }

    pub fn part_offset(&self) -> (r: &[u64])
        requires
            self@.sound,
        ensures
            r@ == self@.offsets,
    {
        self.part_offset.as_slice()
    }

    /// Whether every partition lies within the records.
    pub fn is_wf(&self) -> (r: bool)
        ensures
            r == self@.wf(),
    {
        let n_offsets: usize = self.part_offset.len();
        if !self.sound || self.part_client.len() as u64 != self.n_parts || self.part_symbol.len()
            as u64 != self.n_parts || self.records.len() as u64 != self.n_rows || n_offsets == 0
            || (n_offsets - 1) as u64 != self.n_parts {
            return false;
        }
        let n: usize = self.n_parts as usize;
        let mut i: usize = 0;
        while i < n
            invariant
                i <= n,
                self.part_offset@.len() == n + 1,
                forall|a: int, b: int|
                    0 <= a <= b <= i ==> self.part_offset@[a] <= self.part_offset@[b],
            decreases n - i,
        {
            if self.part_offset[i] > self.part_offset[i + 1] {
                assert(!offsets_ascend(self@.offsets));
                return false;
            }
            i = i + 1;
        }
        self.part_offset[n] <= self.n_rows
    }

    /// The records of partition `p`.
    pub fn partition(&self, p: usize) -> (r: &[PackedTrade])
        requires
            self@.sound,
            p + 1 < self@.offsets.len(),
            self@.offsets[p as int] <= self@.offsets[p + 1] <= self@.records.len(),
        ensures
            r@ == self@.part(p as int),
            r@ == self@.records.subrange(
                self@.offsets[p as int] as int,
                self@.offsets[p + 1] as int,
            ),
    {
        let _n_rows: usize = self.records.len();
        let n_offsets: usize = self.part_offset.len();
        assert(p + 1 < n_offsets);
        let from: usize = self.part_offset[p] as usize;
        let to: usize = self.part_offset[p + 1] as usize;
        vstd::slice::slice_subrange(self.records.as_slice(), from, to)
    }
}

/// Days never go back.
pub open spec fn days_ascend(recs: Seq<PackedTrade>) -> bool {
    forall|i: int, j: int| 0 <= i <= j < recs.len() ==> recs[i].day <= recs[j].day
}

/// How many records, from the first on, lie before day `d`.
pub open spec fn cut(recs: Seq<PackedTrade>, d: int) -> int
    decreases recs.len(),
{
    if recs.len() == 0 || recs[0].day >= d {
        0
    } else {
        1 + cut(recs.drop_first(), d)
    }
}

/// The records of the days from `lo` to `hi`, both included.
pub open spec fn days_between(recs: Seq<PackedTrade>, lo: int, hi: int) -> Seq<PackedTrade> {
    recs.subrange(cut(recs, lo), cut(recs, hi + 1))
}

/// In day order, the records before the cut lie before the day and no other does.
pub proof fn lemma_cut(recs: Seq<PackedTrade>, d: int)
    requires
        days_ascend(recs),
    ensures
        0 <= cut(recs, d) <= recs.len(),
        forall|i: int| 0 <= i < cut(recs, d) ==> (#[trigger] recs[i]).day < d,
        forall|i: int| cut(recs, d) <= i < recs.len() ==> (#[trigger] recs[i]).day >= d,
    decreases recs.len(),
{
    if recs.len() > 0 && recs[0].day < d {
        let rest = recs.drop_first();
        assert forall|i: int, j: int| 0 <= i <= j < rest.len() implies rest[i].day
            <= rest[j].day by {
            assert(recs[i + 1].day <= recs[j + 1].day);
        }
        lemma_cut(rest, d);
        assert forall|i: int| 0 <= i < cut(recs, d) implies (#[trigger] recs[i]).day < d by {
            if i > 0 {
                assert(rest[i - 1] == recs[i]);
            }
        }
        assert forall|i: int| cut(recs, d) <= i < recs.len() implies (#[trigger] recs[i]).day
            >= d by {
            assert(rest[i - 1] == recs[i]);
        }
    } else if recs.len() > 0 {
        assert forall|i: int| 0 <= i < recs.len() implies (#[trigger] recs[i]).day >= d by {
            assert(recs[0].day <= recs[i].day);
        }
    }
}

/// A later day cuts no earlier.
pub proof fn lemma_cut_mono(recs: Seq<PackedTrade>, a: int, b: int)
    requires
        days_ascend(recs),
        a <= b,
    ensures
        cut(recs, a) <= cut(recs, b),
{
    lemma_cut(recs, a);
    lemma_cut(recs, b);
    if cut(recs, b) < cut(recs, a) {
        assert(recs[cut(recs, b)].day < a);
    }
}

/// How many records, from the first on, lie before day `d`.
pub fn lower_bound(recs: &[PackedTrade], d: i64) -> (k: usize)
    requires
        days_ascend(recs@),
    ensures
        k == cut(recs@, d as int),
        k <= recs@.len(),
        forall|i: int| 0 <= i < recs@.len() ==> (i < k <==> (#[trigger] recs@[i]).day < d),
{
    proof {
        lemma_cut(recs@, d as int);
    }
    let mut lo: usize = 0;
    let mut hi: usize = recs.len();
    while lo < hi
        invariant
            days_ascend(recs@),
            lo <= hi <= recs@.len(),
            lo <= cut(recs@, d as int) <= hi,
            forall|i: int| 0 <= i < cut(recs@, d as int) ==> (#[trigger] recs@[i]).day < d,
            forall|i: int|
                cut(recs@, d as int) <= i < recs@.len() ==> (#[trigger] recs@[i]).day >= d,
        decreases hi - lo,
    {
        let mid: usize = lo + (hi - lo) / 2;
        if (recs[mid].day as i64) < d {
            lo = mid + 1;
        } else {
            hi = mid;
        }
    }
    lo
}

/// How many clients, from the first on, are below `c`, or not above it.
fn client_bound(pc: &[u64], c: u64, inclusive: bool) -> (k: usize)
    ensures
        k <= pc@.len(),
        clients_ascend(pc@) ==> forall|i: int|
            0 <= i < pc@.len() ==> (i < k <==> (#[trigger] pc@[i] < c || inclusive && pc@[i] == c)),
{
    let mut lo: usize = 0;
    let mut hi: usize = pc.len();
    while lo < hi
        invariant
            lo <= hi <= pc@.len(),
            clients_ascend(pc@) ==> forall|i: int|
                0 <= i < lo ==> (#[trigger] pc@[i] < c || inclusive && pc@[i] == c),
            clients_ascend(pc@) ==> forall|i: int|
                hi <= i < pc@.len() ==> !(#[trigger] pc@[i] < c || inclusive && pc@[i] == c),
        decreases hi - lo,
    {
        let mid: usize = lo + (hi - lo) / 2;
        if pc[mid] < c || inclusive && pc[mid] == c {
            lo = mid + 1;
        } else {
            hi = mid;
        }
    }
    lo
}

pub open spec fn clients_ascend(clients: Seq<u64>) -> bool {
    forall|i: int, j: int| 0 <= i <= j < clients.len() ==> clients[i] <= clients[j]
}

impl PackedTable {
    /// The partition of exactly this client and symbol, if there is one.
    pub fn find_partition(&self, client: u64, symbol: u32) -> (r: Option<usize>)
        requires
            self@.wf(),
        ensures
            r matches Some(p) ==> self@.is_part(p as int, client, symbol),
            r is None && self@.sorted() ==> forall|p: int|
                !#[trigger] self@.is_part(p, client, symbol),
            r matches Some(p) ==> p < self@.n_parts && self@.clients[p as int] == client
                && self@.symbols[p as int] == symbol,
            r is None && self@.sorted() ==> forall|p: int|
                0 <= p < self@.n_parts ==> (#[trigger] self@.clients[p]) != client
                    || self@.symbols[p] != symbol,
    {
        let pc = self.part_client();
        let ps = self.part_symbol();
        let ghost m = self@;
        let mut lo: usize = 0;
        let mut hi: usize = pc.len();
        while lo < hi
            invariant
                m == self@,
                m.wf(),
                pc@ == m.clients,
                ps@ == m.symbols,
                lo <= hi <= pc@.len(),
                m.sorted() ==> forall|p: int|
                    #[trigger] m.is_part(p, client, symbol) ==> lo <= p < hi,
            decreases hi - lo,
        {
            let mid: usize = lo + (hi - lo) / 2;
            if pc[mid] == client && ps[mid] == symbol {
                assert(m.is_part(mid as int, client, symbol));
                return Some(mid);
            }
            proof {
                assert forall|p: int|
                    m.sorted() && #[trigger] m.is_part(p, client, symbol) implies p != mid && (p
                    < mid ==> m.key_before(p, mid as int)) && (p > mid ==> m.key_before(
                    mid as int,
                    p,
                )) by {}
            }
            if pc[mid] < client || pc[mid] == client && ps[mid] < symbol {
                lo = mid + 1;
            } else {
                hi = mid;
            }
        }
        proof {
            if m.sorted() {
                assert forall|p: int| 0 <= p < m.n_parts implies (#[trigger] m.clients[p]) != client
                    || m.symbols[p] != symbol by {
                    assert(!m.is_part(p, client, symbol));
                }
            }
        }
        None
    }

    /// The partitions of one client: those from `start` up to `end`.
    pub fn partitions_for_client(&self, client: u64) -> (r: core::ops::Range<usize>)
        requires
            self@.sound,
        ensures
            r.start <= self@.clients.len(),
            r.end <= self@.clients.len(),
            clients_ascend(self@.clients) ==> {
                &&& r.start <= r.end
                &&& forall|p: int|
                    0 <= p < self@.clients.len() ==> (p < r.start <==> #[trigger] self@.clients[p]
                        < client) && (p < r.end <==> self@.clients[p] <= client)
            },
    {
        let pc = self.part_client();
        let lo: usize = client_bound(pc, client, false);
        let hi: usize = client_bound(pc, client, true);
        proof {
            if clients_ascend(pc@) && hi < lo {
                assert(pc@[hi as int] < client);
            }
        }
        lo..hi
    }

    /// The records of the days from `lo` to `hi`, both included, out of records
    /// in day order.
    pub fn day_range<'a>(&self, recs: &'a [PackedTrade], lo: i32, hi: i32) -> (r: &'a [PackedTrade])
        requires
            days_ascend(recs@),
            cut(recs@, lo as int) <= cut(recs@, hi + 1),
        ensures
            r@ == days_between(recs@, lo as int, hi as int),
            lo <= hi + 1 ==> r@ == recs@.filter(|x: PackedTrade| lo <= x.day <= hi),
    {
        proof {
            if lo <= hi + 1 {
                lemma_days_between(recs@, lo as int, hi as int);
                assert(recs@.filter(|x: PackedTrade| lo <= x.day <= hi) == recs@.filter(
                    |r: PackedTrade| lo as int <= r.day <= hi as int,
                ));
            }
        }
        let s: usize = lower_bound(recs, lo as i64);
        let e: usize = lower_bound(recs, hi as i64 + 1);
        vstd::slice::slice_subrange(recs, s, e)
    }
}

// ---------------------------------------------------------------------------
// Laws
// ---------------------------------------------------------------------------

/// A record keeps its trade: the price as it is, as many shares as were traded, a
/// sell's below zero, and the day on which they were, counted from the epoch on
/// either side of it.
pub proof fn lemma_record_keeps_trade(t: Trade)
    requires
        t.side == 1 || t.side == -1,
        0 < t.quantity < 0x8000_0000,
    ensures
        packable(t),
        packed_of(t).price_ticks == t.price_ticks,
        t.side == 1 ==> packed_of(t).signed_qty == t.quantity,
        t.side == -1 ==> packed_of(t).signed_qty == -t.quantity,
        t.ts_micros >= 0 ==> packed_of(t).day * 86_400_000_000 <= t.ts_micros < (packed_of(t).day
            + 1) * 86_400_000_000,
        t.ts_micros < 0 ==> (packed_of(t).day - 1) * 86_400_000_000 < t.ts_micros
            <= packed_of(t).day * 86_400_000_000,
{
    let d = day_of(t.ts_micros as int);
    assert(-0x7fff_ffff <= d <= 0x7fff_ffff);
    assert(1 * as_signed(t.quantity) == t.quantity);
    assert(-1 * as_signed(t.quantity) == -t.quantity);
}

/// Trades that share a record have the same price, side and shares, and from the
/// epoch on lie less than a day apart.
pub proof fn lemma_records_tell_trades_apart(a: Trade, b: Trade)
    requires
        a.side == 1 || a.side == -1,
        b.side == 1 || b.side == -1,
        0 < a.quantity < 0x8000_0000,
        0 < b.quantity < 0x8000_0000,
        packed_of(a) == packed_of(b),
    ensures
        a.price_ticks == b.price_ticks,
        a.side == b.side,
        a.quantity == b.quantity,
        a.ts_micros >= 0 && b.ts_micros >= 0 ==> -86_400_000_000 < a.ts_micros - b.ts_micros
            < 86_400_000_000,
{
    lemma_record_keeps_trade(a);
    lemma_record_keeps_trade(b);
}

/// Partitions in ascending order stand there once each.
pub proof fn lemma_sorted_distinct(m: TableModel)
    requires
        m.sorted(),
    ensures
        m.distinct(),
{
    assert forall|a: int, b: int| 0 <= a < b < m.n_parts implies (#[trigger] m.clients[a]) != (
    #[trigger] m.clients[b]) || m.symbols[a] != m.symbols[b] by {
        assert(m.key_before(a, b));
    }
}

/// A `(client, symbol)` order on partitions is an order on their clients.
pub proof fn lemma_sorted_clients(m: TableModel)
    requires
        m.wf(),
        m.sorted(),
    ensures
        clients_ascend(m.clients),
{
    assert forall|i: int, j: int| 0 <= i <= j < m.clients.len() implies m.clients[i]
        <= m.clients[j] by {
        if i < j {
            assert(m.key_before(i, j));
        }
    }
}

/// The records between two days are those that are not before the first and not
/// after the last, and no others.
pub proof fn lemma_days_between(recs: Seq<PackedTrade>, lo: int, hi: int)
    requires
        days_ascend(recs),
        lo <= hi + 1,
    ensures
        days_between(recs, lo, hi) == recs.filter(|r: PackedTrade| lo <= r.day <= hi),
{
    lemma_cut(recs, lo);
    lemma_cut(recs, hi + 1);
    lemma_cut_mono(recs, lo, hi + 1);
    let p = |r: PackedTrade| lo <= r.day <= hi;
    let s = cut(recs, lo);
    let e = cut(recs, hi + 1);
    let a = recs.take(s);
    let b = recs.subrange(s, e);
    let c = recs.skip(e);
    assert(recs =~= a + b + c);
    Seq::filter_distributes_over_add(a + b, c, p);
    Seq::filter_distributes_over_add(a, b, p);
    lemma_filter_none(a, p);
    lemma_filter_all(b, p);
    lemma_filter_none(c, p);
    assert(recs.filter(p) =~= b);
}

proof fn lemma_filter_none(s: Seq<PackedTrade>, p: spec_fn(PackedTrade) -> bool)
    requires
        forall|i: int| 0 <= i < s.len() ==> !p(#[trigger] s[i]),
    ensures
        s.filter(p) == Seq::<PackedTrade>::empty(),
    decreases s.len(),
{
    reveal(Seq::filter);
    if s.len() > 0 {
        assert(!p(s.last()));
        lemma_filter_none(s.drop_last(), p);
    }
}

proof fn lemma_filter_all(s: Seq<PackedTrade>, p: spec_fn(PackedTrade) -> bool)
    requires
        forall|i: int| 0 <= i < s.len() ==> p(#[trigger] s[i]),
    ensures
        s.filter(p) == s,
    decreases s.len(),
{
    reveal(Seq::filter);
    if s.len() > 0 {
        assert(p(s.last()));
        lemma_filter_all(s.drop_last(), p);
        assert(s.drop_last().push(s.last()) =~= s);
    }
}

/// Reading a table that was written gives back what was written.
pub proof fn lemma_round_trip(
    clients: Seq<u64>,
    symbols: Seq<u32>,
    offsets: Seq<u64>,
    records: Seq<PackedTrade>,
)
    requires
        arrays_match(clients, symbols, offsets),
        rows_of(offsets) == records.len(),
        layout(clients.len() as int, rows_of(offsets)).len <= u64::MAX,
    ensures
        ({
            let b = table_image(clients, symbols, offsets, records);
            &&& header_error(b) is None
            &&& sections_fit(b)
            &&& decoded(b) == TableModel {
                sound: true,
                n_rows: records.len() as int,
                n_parts: clients.len() as int,
                clients,
                symbols,
                offsets,
                records,
            }
        }),
{
    let n = clients.len() as int;
    let rows = records.len() as int;
    let l = layout(n, rows);
    let b = table_image(clients, symbols, offsets, records);
    lemma_layout(n, rows);
    lemma_image_sections(clients, symbols, offsets, records);
    lemma_fields(b, n, rows);
    lemma_decodes(b, l, clients, symbols, offsets, records);
}

/// What stands in the header of a written table: "FIFOPK01", the version, the numbers
/// of records and of partitions, the tick size, where the sections start, and where
/// the file ends.
#[verifier::spinoff_prover]
pub proof fn lemma_file_header(
    clients: Seq<u64>,
    symbols: Seq<u32>,
    offsets: Seq<u64>,
    records: Seq<PackedTrade>,
)
    requires
        arrays_match(clients, symbols, offsets),
        rows_of(offsets) == records.len(),
        layout(clients.len() as int, rows_of(offsets)).len <= u64::MAX,
    ensures
        ({
            let b = table_image(clients, symbols, offsets, records);
            let n = clients.len() as int;
            let rows = records.len() as int;
            let symbol_at = 80 + 8 * n;
            let offset_at = u64_at(b, 56);
            let record_at = u64_at(b, 64);
            &&& b.take(8) == seq![0x46u8, 0x49u8, 0x46u8, 0x4fu8, 0x50u8, 0x4bu8, 0x30u8, 0x31u8]
            &&& u32_at(b, 8) == 1
            &&& u32_at(b, 12) == 0
            &&& u64_at(b, 16) == rows
            &&& u64_at(b, 24) == n
            &&& u64_at(b, 32) == 0x3fa9_9999_9999_999a
            &&& u64_at(b, 40) == 80
            &&& u64_at(b, 48) == symbol_at
            &&& symbol_at + 4 * n <= offset_at < symbol_at + 4 * n + 8 && offset_at % 8 == 0
            &&& offset_at + 8 * (n + 1) <= record_at < offset_at + 8 * (n + 1) + 4096
            &&& record_at % 4096 == 0
            &&& u64_at(b, 72) == b.len()
            &&& b.len() == record_at + 12 * rows
        }),
{
    let n = clients.len() as int;
    let rows = records.len() as int;
    let b = table_image(clients, symbols, offsets, records);
    let h = header_image(n, rows);
    lemma_layout(n, rows);
    lemma_image_sections(clients, symbols, offsets, records);
    lemma_fields(b, n, rows);
    lemma_header_fields(n, rows);
    lemma_header_constants(n, rows);
    assert(b.subrange(8, 12) =~= h.subrange(8, 12));
    assert(b.subrange(12, 16) =~= h.subrange(12, 16));
    assert(b.subrange(32, 40) =~= h.subrange(32, 40));
    assert(b.take(8) =~= h.take(8));
}

proof fn lemma_header_constants(n_parts: int, n_rows: int)
    requires
        0 <= n_parts,
        0 <= n_rows,
        layout(n_parts, n_rows).len <= u64::MAX,
    ensures
        ({
            let h = header_image(n_parts, n_rows);
            &&& h.len() == 80
            &&& u32_at(h, 8) == 1
            &&& u32_at(h, 12) == 0
            &&& u64_at(h, 32) == TICK_BITS
        }),
{
    let h = header_image(n_parts, n_rows);
    lemma_field_lens();
    crate::bytes::lemma_pow256();
    assert(h.subrange(8, 12) =~= le(1, 4));
    assert(h.subrange(12, 16) =~= le(0, 4));
    assert(h.subrange(32, 40) =~= le(TICK_BITS as int, 8));
    crate::bytes::lemma_le(1, 4);
    crate::bytes::lemma_le(0, 4);
    crate::bytes::lemma_le(TICK_BITS as int, 8);
}

/// Where a partition stands in a written table: its client, its symbol and its
/// offsets, each in the section that the header names.
#[verifier::spinoff_prover]
pub proof fn lemma_file_partition(
    clients: Seq<u64>,
    symbols: Seq<u32>,
    offsets: Seq<u64>,
    records: Seq<PackedTrade>,
    p: int,
)
    requires
        arrays_match(clients, symbols, offsets),
        rows_of(offsets) == records.len(),
        layout(clients.len() as int, rows_of(offsets)).len <= u64::MAX,
        0 <= p < clients.len(),
    ensures
        ({
            let b = table_image(clients, symbols, offsets, records);
            &&& u64_at(b, u64_at(b, 40) + 8 * p) == clients[p]
            &&& u32_at(b, u64_at(b, 48) + 4 * p) == symbols[p]
            &&& u64_at(b, u64_at(b, 56) + 8 * p) == offsets[p]
            &&& u64_at(b, u64_at(b, 56) + 8 * (p + 1)) == offsets[p + 1]
        }),
{
    let n = clients.len() as int;
    let rows = records.len() as int;
    let l = layout(n, rows);
    let b = table_image(clients, symbols, offsets, records);
    lemma_layout(n, rows);
    lemma_image_sections(clients, symbols, offsets, records);
    lemma_fields(b, n, rows);
    lemma_u64_items(b, l.client, clients);
    lemma_u32_items(b, l.symbol, symbols);
    lemma_u64_items(b, l.offset, offsets);
    lemma_u64_read(b, l.client + 8 * p);
    lemma_u32_read(b, l.symbol + 4 * p);
    lemma_u64_read(b, l.offset + 8 * p);
    lemma_u64_read(b, l.offset + 8 * (p + 1));
    assert(Seq::new(clients.len(), |i: int| u64_at(b, l.client + 8 * i) as u64)[p] == clients[p]);
    assert(Seq::new(symbols.len(), |i: int| u32_at(b, l.symbol + 4 * i) as u32)[p] == symbols[p]);
    let read = Seq::new(offsets.len(), |i: int| u64_at(b, l.offset + 8 * i) as u64);
    assert(read[p] == offsets[p] && read[p + 1] == offsets[p + 1]);
}

/// Where a record stands in a written table: its shares, its price and its day, one
/// behind the other.
#[verifier::spinoff_prover]
pub proof fn lemma_file_record(
    clients: Seq<u64>,
    symbols: Seq<u32>,
    offsets: Seq<u64>,
    records: Seq<PackedTrade>,
    i: int,
)
    requires
        arrays_match(clients, symbols, offsets),
        rows_of(offsets) == records.len(),
        layout(clients.len() as int, rows_of(offsets)).len <= u64::MAX,
        0 <= i < records.len(),
    ensures
        ({
            let b = table_image(clients, symbols, offsets, records);
            let at = u64_at(b, 64) + 12 * i;
            &&& of_bits(u32_at(b, at)) == records[i].signed_qty
            &&& of_bits(u32_at(b, at + 4)) == records[i].price_ticks
            &&& of_bits(u32_at(b, at + 8)) == records[i].day
        }),
{
    let n = clients.len() as int;
    let rows = records.len() as int;
    let l = layout(n, rows);
    let b = table_image(clients, symbols, offsets, records);
    lemma_layout(n, rows);
    lemma_image_sections(clients, symbols, offsets, records);
    lemma_fields(b, n, rows);
    lemma_record_items(b, l.records, records);
    let at = l.records + 12 * i;
    lemma_u32_read(b, at);
    lemma_u32_read(b, at + 4);
    lemma_u32_read(b, at + 8);
    assert(Seq::new(records.len(), |i: int| record_at(b, l.records + 12 * i))[i] == records[i]);
}

proof fn lemma_u64_read(b: Seq<u8>, at: int)
    requires
        0 <= at,
        at + 8 <= b.len(),
    ensures
        0 <= u64_at(b, at) <= u64::MAX,
{
    crate::bytes::lemma_pow256();
    crate::bytes::lemma_un_le_bound(b.subrange(at, at + 8));
}

proof fn lemma_u32_read(b: Seq<u8>, at: int)
    requires
        0 <= at,
        at + 4 <= b.len(),
    ensures
        0 <= u32_at(b, at) <= u32::MAX,
{
    crate::bytes::lemma_pow256();
    crate::bytes::lemma_un_le_bound(b.subrange(at, at + 4));
}

/// A buffer is refused where it is shorter than a header of eighty bytes, where it
/// does not start with "FIFOPK01", and where it is shorter than its header says, in
/// this order, and nowhere else.
pub proof fn lemma_what_is_refused(b: Seq<u8>)
    ensures
        header_error(b) == Some(PackedError::TooSmall) <==> b.len() < 80,
        header_error(b) == Some(PackedError::BadMagic) <==> b.len() >= 80 && b.take(8) != seq![
            0x46u8,
            0x49u8,
            0x46u8,
            0x4fu8,
            0x50u8,
            0x4bu8,
            0x30u8,
            0x31u8,
        ],
        header_error(b) == Some(PackedError::Truncated) <==> b.len() >= 80 && b.take(8) == seq![
            0x46u8,
            0x49u8,
            0x46u8,
            0x4fu8,
            0x50u8,
            0x4bu8,
            0x30u8,
            0x31u8,
        ] && u64_at(b, 72) > b.len(),
{
}

/// A buffer's sections lie within it where each starts at a multiple of the size of
/// its numbers and ends before the buffer does.
pub proof fn lemma_sections_by_header(b: Seq<u8>)
    ensures
        sections_fit(b) <==> {
            let n = u64_at(b, 24);
            &&& u64_at(b, 40) % 8 == 0 && u64_at(b, 40) + 8 * n <= b.len()
            &&& u64_at(b, 48) % 4 == 0 && u64_at(b, 48) + 4 * n <= b.len()
            &&& u64_at(b, 56) % 8 == 0 && u64_at(b, 56) + 8 * (n + 1) <= b.len()
            &&& u64_at(b, 64) % 4 == 0 && u64_at(b, 64) + 12 * u64_at(b, 16) <= b.len()
        },
{
}

/// A buffer is read where its header says: partition `p` has the `p`-th client,
/// symbol and offset of their sections, and record `i` the `i`-th three numbers of
/// theirs.
#[verifier::spinoff_prover]
pub proof fn lemma_read_where_header_says(b: Seq<u8>, p: int, i: int)
    requires
        b.len() >= 80,
        sections_fit(b),
        0 <= p < u64_at(b, 24),
        0 <= i < u64_at(b, 16),
    ensures
        decoded(b).n_parts == u64_at(b, 24),
        decoded(b).n_rows == u64_at(b, 16),
        decoded(b).clients.len() == u64_at(b, 24),
        decoded(b).symbols.len() == u64_at(b, 24),
        decoded(b).offsets.len() == u64_at(b, 24) + 1,
        decoded(b).records.len() == u64_at(b, 16),
        decoded(b).clients[p] == u64_at(b, u64_at(b, 40) + 8 * p),
        decoded(b).symbols[p] == u32_at(b, u64_at(b, 48) + 4 * p),
        decoded(b).offsets[p] == u64_at(b, u64_at(b, 56) + 8 * p),
        decoded(b).offsets[p + 1] == u64_at(b, u64_at(b, 56) + 8 * (p + 1)),
        decoded(b).records[i].signed_qty == of_bits(u32_at(b, u64_at(b, 64) + 12 * i)),
        decoded(b).records[i].price_ticks == of_bits(u32_at(b, u64_at(b, 64) + 12 * i + 4)),
        decoded(b).records[i].day == of_bits(u32_at(b, u64_at(b, 64) + 12 * i + 8)),
{
    lemma_u64_read(b, 40);
    lemma_u64_read(b, 48);
    lemma_u64_read(b, 56);
    lemma_u64_read(b, 64);
    lemma_u64_read(b, u64_at(b, 40) + 8 * p);
    lemma_u32_read(b, u64_at(b, 48) + 4 * p);
    lemma_u64_read(b, u64_at(b, 56) + 8 * p);
    lemma_u64_read(b, u64_at(b, 56) + 8 * (p + 1));
    let at = u64_at(b, 64) + 12 * i;
    lemma_u32_read(b, at);
    lemma_u32_read(b, at + 4);
    lemma_u32_read(b, at + 8);
}

/// What fills the gaps between sections is zero.
pub proof fn lemma_gaps_are_zero(s: Seq<u8>, n: int, i: int)
    requires
        s.len() <= n,
        0 <= i < n,
    ensures
        filled(s, n).len() == n,
        filled(s, n)[i] == (if i < s.len() {
            s[i]
        } else {
            0
        }),
{
}

/// A table that was written and then cut short is refused, wherever it was cut.
pub proof fn lemma_prefix_refused(
    clients: Seq<u64>,
    symbols: Seq<u32>,
    offsets: Seq<u64>,
    records: Seq<PackedTrade>,
    k: int,
)
    requires
        arrays_match(clients, symbols, offsets),
        rows_of(offsets) == records.len(),
        layout(clients.len() as int, rows_of(offsets)).len <= u64::MAX,
        0 <= k < table_image(clients, symbols, offsets, records).len(),
    ensures
        header_error(table_image(clients, symbols, offsets, records).take(k)) == Some(
            if k < HEADER_BYTES {
                PackedError::TooSmall
            } else {
                PackedError::Truncated
            },
        ),
{
    let n = clients.len() as int;
    let rows = records.len() as int;
    let b = table_image(clients, symbols, offsets, records);
    lemma_layout(n, rows);
    lemma_image_sections(clients, symbols, offsets, records);
    lemma_fields(b, n, rows);
    if k >= HEADER_BYTES {
        assert(b.take(k).take(8) =~= b.take(8));
        assert(b.take(k).subrange(72, 80) =~= b.subrange(72, 80));
    }
}

/// A buffer whose header names where the arrays stand reads as those arrays.
proof fn lemma_decodes(
    b: Seq<u8>,
    l: Layout,
    clients: Seq<u64>,
    symbols: Seq<u32>,
    offsets: Seq<u64>,
    records: Seq<PackedTrade>,
)
    requires
        arrays_match(clients, symbols, offsets),
        u64_at(b, 16) == records.len(),
        u64_at(b, 24) == clients.len(),
        u64_at(b, 40) == l.client,
        u64_at(b, 48) == l.symbol,
        u64_at(b, 56) == l.offset,
        u64_at(b, 64) == l.records,
        0 <= l.client,
        0 <= l.symbol,
        0 <= l.offset,
        0 <= l.records,
        l.client % 8 == 0,
        l.symbol % 4 == 0,
        l.offset % 8 == 0,
        l.records % 4 == 0,
        l.client + 8 * clients.len() <= b.len(),
        l.symbol + 4 * symbols.len() <= b.len(),
        l.offset + 8 * offsets.len() <= b.len(),
        l.records + 12 * records.len() <= b.len(),
        b.subrange(l.client, l.client + 8 * clients.len()) == laid(clients, u64_image()),
        b.subrange(l.symbol, l.symbol + 4 * symbols.len()) == laid(symbols, u32_image()),
        b.subrange(l.offset, l.offset + 8 * offsets.len()) == laid(offsets, u64_image()),
        b.subrange(l.records, l.records + 12 * records.len()) == laid(records, record_image()),
    ensures
        sections_fit(b),
        decoded(b) == (TableModel {
            sound: true,
            n_rows: records.len() as int,
            n_parts: clients.len() as int,
            clients,
            symbols,
            offsets,
            records,
        }),
{
    lemma_u64_items(b, l.client, clients);
    lemma_u32_items(b, l.symbol, symbols);
    lemma_u64_items(b, l.offset, offsets);
    lemma_record_items(b, l.records, records);
}

/// The fields of a buffer's header.
proof fn lemma_fields(b: Seq<u8>, n_parts: int, n_rows: int)
    requires
        0 <= n_parts,
        0 <= n_rows,
        layout(n_parts, n_rows).len <= u64::MAX,
        b.len() == layout(n_parts, n_rows).len,
        b.take(80) == header_image(n_parts, n_rows),
    ensures
        ({
            let l = layout(n_parts, n_rows);
            &&& header_error(b) is None
            &&& u64_at(b, 72) == l.len
            &&& u64_at(b, 16) == n_rows
            &&& u64_at(b, 24) == n_parts
            &&& u64_at(b, 40) == l.client
            &&& u64_at(b, 48) == l.symbol
            &&& u64_at(b, 56) == l.offset
            &&& u64_at(b, 64) == l.records
        }),
{
    let h = header_image(n_parts, n_rows);
    lemma_layout(n_parts, n_rows);
    lemma_header_fields(n_parts, n_rows);
    assert(b.subrange(16, 24) =~= h.subrange(16, 24));
    assert(b.subrange(24, 32) =~= h.subrange(24, 32));
    assert(b.subrange(40, 48) =~= h.subrange(40, 48));
    assert(b.subrange(48, 56) =~= h.subrange(48, 56));
    assert(b.subrange(56, 64) =~= h.subrange(56, 64));
    assert(b.subrange(64, 72) =~= h.subrange(64, 72));
    assert(b.subrange(72, 80) =~= h.subrange(72, 80));
    assert(b.take(8) =~= h.take(8));
}

/// Where the pieces of a buffer stand.
proof fn lemma_image_sections(
    clients: Seq<u64>,
    symbols: Seq<u32>,
    offsets: Seq<u64>,
    records: Seq<PackedTrade>,
)
    requires
        arrays_match(clients, symbols, offsets),
        rows_of(offsets) == records.len(),
    ensures
        ({
            let n = clients.len() as int;
            let rows = records.len() as int;
            let l = layout(n, rows);
            let b = table_image(clients, symbols, offsets, records);
            &&& b.len() == l.len
            &&& b.take(80) == header_image(n, rows)
            &&& b.subrange(l.client, l.client + 8 * n) == laid(clients, u64_image())
            &&& b.subrange(l.symbol, l.symbol + 4 * n) == laid(symbols, u32_image())
            &&& b.subrange(l.offset, l.offset + 8 * (n + 1)) == laid(offsets, u64_image())
            &&& b.subrange(l.records, l.records + 12 * rows) == laid(records, record_image())
        }),
{
    let n = clients.len() as int;
    let rows = records.len() as int;
    let l = layout(n, rows);
    let b = table_image(clients, symbols, offsets, records);
    let h = header_image(n, rows);
    lemma_layout(n, rows);
    lemma_image_lens(clients, symbols, offsets);
    let lc = laid(clients, u64_image());
    let ls = laid(symbols, u32_image());
    let lo = laid(offsets, u64_image());
    let lr = laid(records, record_image());
    assert(lr.len() == 12 * rows) by {
        lemma_field_lens();
        crate::bytes::lemma_laid(records, record_image(), 12);
    }
    let a = h + lc;
    let bb = a + ls;
    let c1 = filled(bb, l.offset);
    let c = c1 + lo;
    let d = filled(c, l.records);
    assert(filled(h, l.client) =~= h);
    assert(filled(a, l.symbol) =~= a);
    assert(b == d + lr);
    assert(c1.len() == l.offset);
    assert(d.len() == l.records);
    assert(b.take(80) =~= h);
    assert(b.subrange(l.client, l.client + 8 * n) =~= lc);
    assert(b.subrange(l.symbol, l.symbol + 4 * n) =~= ls);
    assert(b.subrange(l.offset, l.offset + 8 * (n + 1)) =~= lo);
    assert(b.subrange(l.records, l.records + 12 * rows) =~= lr);
}

proof fn lemma_header_fields(n_parts: int, n_rows: int)
    requires
        0 <= n_parts,
        0 <= n_rows,
        layout(n_parts, n_rows).len <= u64::MAX,
    ensures
        ({
            let l = layout(n_parts, n_rows);
            let h = header_image(n_parts, n_rows);
            &&& h.take(8) == magic()
            &&& u64_at(h, 16) == n_rows
            &&& u64_at(h, 24) == n_parts
            &&& u64_at(h, 40) == l.client
            &&& u64_at(h, 48) == l.symbol
            &&& u64_at(h, 56) == l.offset
            &&& u64_at(h, 64) == l.records
            &&& u64_at(h, 72) == l.len
        }),
{
    let l = layout(n_parts, n_rows);
    let h = header_image(n_parts, n_rows);
    lemma_layout(n_parts, n_rows);
    lemma_field_lens();
    crate::bytes::lemma_pow256();
    assert(h.take(8) =~= magic());
    assert(h.subrange(16, 24) =~= le(n_rows, 8));
    assert(h.subrange(24, 32) =~= le(n_parts, 8));
    assert(h.subrange(40, 48) =~= le(l.client, 8));
    assert(h.subrange(48, 56) =~= le(l.symbol, 8));
    assert(h.subrange(56, 64) =~= le(l.offset, 8));
    assert(h.subrange(64, 72) =~= le(l.records, 8));
    assert(h.subrange(72, 80) =~= le(l.len, 8));
    crate::bytes::lemma_le(n_rows, 8);
    crate::bytes::lemma_le(n_parts, 8);
    crate::bytes::lemma_le(l.client, 8);
    crate::bytes::lemma_le(l.symbol, 8);
    crate::bytes::lemma_le(l.offset, 8);
    crate::bytes::lemma_le(l.records, 8);
    crate::bytes::lemma_le(l.len, 8);
}

proof fn lemma_u64_items(b: Seq<u8>, off: int, items: Seq<u64>)
    requires
        0 <= off,
        off + 8 * items.len() <= b.len(),
        b.subrange(off, off + 8 * items.len()) == laid(items, u64_image()),
    ensures
        Seq::new(items.len(), |i: int| u64_at(b, off + 8 * i) as u64) == items,
{
    lemma_field_lens();
    crate::bytes::lemma_pow256();
    crate::bytes::lemma_laid(items, u64_image(), 8);
    let s = laid(items, u64_image());
    let read = Seq::new(items.len(), |i: int| u64_at(b, off + 8 * i) as u64);
    assert forall|i: int| 0 <= i < items.len() implies read[i] == #[trigger] items[i] by {
        assert(s.subrange(8 * i, 8 * i + 8) == le(items[i] as int, 8));
        assert(b.subrange(off + 8 * i, off + 8 * i + 8) =~= s.subrange(8 * i, 8 * i + 8));
        crate::bytes::lemma_le(items[i] as int, 8);
    }
    assert(read =~= items);
}

proof fn lemma_u32_items(b: Seq<u8>, off: int, items: Seq<u32>)
    requires
        0 <= off,
        off + 4 * items.len() <= b.len(),
        b.subrange(off, off + 4 * items.len()) == laid(items, u32_image()),
    ensures
        Seq::new(items.len(), |i: int| u32_at(b, off + 4 * i) as u32) == items,
{
    lemma_field_lens();
    crate::bytes::lemma_pow256();
    crate::bytes::lemma_laid(items, u32_image(), 4);
    let s = laid(items, u32_image());
    let read = Seq::new(items.len(), |i: int| u32_at(b, off + 4 * i) as u32);
    assert forall|i: int| 0 <= i < items.len() implies read[i] == #[trigger] items[i] by {
        assert(s.subrange(4 * i, 4 * i + 4) == le(items[i] as int, 4));
        assert(b.subrange(off + 4 * i, off + 4 * i + 4) =~= s.subrange(4 * i, 4 * i + 4));
        crate::bytes::lemma_le(items[i] as int, 4);
    }
    assert(read =~= items);
}

/// A record's twelve bytes read back.
pub proof fn lemma_record(b: Seq<u8>, at: int, r: PackedTrade)
    requires
        0 <= at,
        at + 12 <= b.len(),
        b.subrange(at, at + 12) == record_image()(r),
    ensures
        record_at(b, at) == r,
{
    lemma_field_lens();
    crate::bytes::lemma_pow256();
    let s = record_image()(r);
    assert(b.subrange(at, at + 4) =~= s.subrange(0, 4));
    assert(b.subrange(at + 4, at + 8) =~= s.subrange(4, 8));
    assert(b.subrange(at + 8, at + 12) =~= s.subrange(8, 12));
    assert(s.subrange(0, 4) =~= le(bits_of(r.signed_qty), 4));
    assert(s.subrange(4, 8) =~= le(bits_of(r.price_ticks), 4));
    assert(s.subrange(8, 12) =~= le(bits_of(r.day), 4));
    crate::bytes::lemma_le(bits_of(r.signed_qty), 4);
    crate::bytes::lemma_le(bits_of(r.price_ticks), 4);
    crate::bytes::lemma_le(bits_of(r.day), 4);
}

proof fn lemma_record_items(b: Seq<u8>, off: int, items: Seq<PackedTrade>)
    requires
        0 <= off,
        off + 12 * items.len() <= b.len(),
        b.subrange(off, off + 12 * items.len()) == laid(items, record_image()),
    ensures
        Seq::new(items.len(), |i: int| record_at(b, off + 12 * i)) == items,
{
    lemma_field_lens();
    assert forall|r: PackedTrade| (#[trigger] record_image()(r)).len() == 12 by {}
    crate::bytes::lemma_laid(items, record_image(), 12);
    let s = laid(items, record_image());
    let read = Seq::new(items.len(), |i: int| record_at(b, off + 12 * i));
    assert forall|i: int| 0 <= i < items.len() implies read[i] == #[trigger] items[i] by {
        assert(s.subrange(12 * i, 12 * i + 12) == record_image()(items[i]));
        assert(b.subrange(off + 12 * i, off + 12 * i + 12) =~= s.subrange(12 * i, 12 * i + 12));
        lemma_record(b, off + 12 * i, items[i]);
    }
    assert(read =~= items);
}

} // verus!
