//! The packer: tradebook rows into a packed table and its page index.

use vstd::prelude::*;
use crate::index::{covered, is_index, PageIndex};
use crate::packed::{
    decoded, header_error, layout, sections_fit, table_image, PackedTable,
};
use crate::rows::{cluster, recs_of, runs, table_runs, Row};
use crate::text::chars_of;

verus! {

/// What packing came to.
#[derive(Clone, Copy, Debug)]
pub struct PackStats {
    pub n_rows: u64,
    pub n_parts: u64,
    pub n_pages: usize,
    pub bytes: u64,
}

/// A packed table as bytes, with its index.
#[derive(Debug)]
pub struct Packed {
    pub bytes: Vec<u8>,
    pub index: PageIndex,
    pub stats: PackStats,
}

/// The name of a tradebook file: "part-", anything, ".parquet".
pub open spec fn is_part_file(s: Seq<char>) -> bool {
    &&& s.len() >= 5
    &&& s.take(5) == seq!['p', 'a', 'r', 't', '-']
    &&& s.len() >= 8
    &&& s.skip(s.len() - 8) == seq!['.', 'p', 'a', 'r', 'q', 'u', 'e', 't']
}

/// Whether a file is part of the tradebook.
pub fn is_part_name(name: &str) -> (r: bool)
    ensures
        r == is_part_file(name@),
        r == (name@.len() >= 8 && name@.take(5) == "part-"@ && name@.skip(name@.len() - 8)
            == ".parquet"@),
{
    proof {
        reveal_strlit("part-");
        reveal_strlit(".parquet");
        assert("part-"@ =~= seq!['p', 'a', 'r', 't', '-']);
        assert(".parquet"@ =~= seq!['.', 'p', 'a', 'r', 'q', 'u', 'e', 't']);
    }
    let cs: Vec<char> = chars_of(name);
    let n: usize = cs.len();
    if n < 8 {
        return false;
    }
    let a = cs[0] == 'p' && cs[1] == 'a' && cs[2] == 'r' && cs[3] == 't' && cs[4] == '-';
    let b = cs[n - 8] == '.' && cs[n - 7] == 'p' && cs[n - 6] == 'a' && cs[n - 5] == 'r' && cs[n
        - 4] == 'q' && cs[n - 3] == 'u' && cs[n - 2] == 'e' && cs[n - 1] == 't';
    proof {
        let p = cs@.take(5);
        let q = cs@.skip(n - 8);
        let x = seq!['p', 'a', 'r', 't', '-'];
        let y = seq!['.', 'p', 'a', 'r', 'q', 'u', 'e', 't'];
        assert(p[0] == cs@[0] && p[1] == cs@[1] && p[2] == cs@[2] && p[3] == cs@[3] && p[4]
            == cs@[4]);
        assert(q[0] == cs@[n - 8] && q[1] == cs@[n - 7] && q[2] == cs@[n - 6] && q[3] == cs@[n - 5]
            && q[4] == cs@[n - 4] && q[5] == cs@[n - 3] && q[6] == cs@[n - 2] && q[7] == cs@[n
            - 1]);
        if a {
            assert(p =~= x);
        }
        if b {
            assert(q =~= y);
        }
    }
    a && b
}

/// Pack rows that stand in tradebook order: one partition for each run of a
/// client and symbol.
pub fn pack(rows: &[Row], page_records: usize) -> (p: Packed)
    requires
        page_records > 0,
        layout(runs(rows@).len() as int, rows@.len() as int).len <= u64::MAX,
    ensures
        ({
            let m = decoded(p.bytes@);
            &&& header_error(p.bytes@) is None
            &&& sections_fit(p.bytes@)
            &&& covered(m)
            &&& table_runs(m) == runs(rows@)
            &&& m.records == recs_of(rows@)
            &&& m.n_rows == rows@.len()
            &&& m.offsets[0] == 0
            &&& p.bytes@ == table_image(m.clients, m.symbols, m.offsets, m.records)
            &&& p.index.page_records == page_records
            &&& is_index(m, page_records as int, p.index.pages@)
            &&& p.stats.n_rows == m.n_rows
            &&& p.stats.n_parts == runs(rows@).len()
            &&& p.stats.n_pages == p.index.pages@.len()
            &&& p.stats.bytes == p.bytes@.len()
        }),
{
    let b = cluster(rows);
    let mut bytes: Vec<u8> = Vec::new();
    proof {
        assert(runs(rows@).len() == b.part_client@.len()) by {
            assert(table_runs(b.model()).len() == b.part_client@.len());
        }
        assert(b.records@.len() == rows@.len());
        crate::packed::lemma_round_trip(
            b.part_client@,
            b.part_symbol@,
            b.part_offset@,
            b.records@,
        );
    }
    b.write(&mut bytes);
    assert(bytes@ =~= table_image(
        b.part_client@,
        b.part_symbol@,
        b.part_offset@,
        b.records@,
    ));
    let table = match PackedTable::from_slice(bytes.as_slice()) {
        Ok(t) => t,
        Err(_) => vstd::pervasive::unreached(),
    };
    assert(decoded(bytes@) == b.model());
    assert(covered(table@));
    let index = PageIndex::build_with(&table, page_records);
    let stats = PackStats {
        n_rows: table.n_rows(),
        n_parts: table.n_parts(),
        n_pages: index.pages.len(),
        bytes: bytes.len() as u64,
    };
    Packed { bytes, index, stats }
}

} // verus!
