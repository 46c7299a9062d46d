//! When the tradebook writer flushes a batch, and which file it goes to.

use vstd::prelude::*;
use crate::pack::is_part_file;
use crate::text::{padded, push_padded};

verus! {

/// The name of tradebook file `i`.
pub open spec fn part_file(i: int) -> Seq<char> {
    "part-"@ + padded(i, 5) + ".parquet"@
}

/// The name of tradebook file `i`: its number in five digits or more.
pub fn part_name(i: u32) -> (r: String)
    ensures
        r@ == part_file(i as int),
        r@ == "part-"@ + padded(i as int, 5) + ".parquet"@,
{
    let mut s = String::from_str("part-");
    push_padded(&mut s, i as i64, 5);
    s.append(".parquet");
    s
}

/// Where the writer stands.
#[derive(Clone, Copy, Debug, PartialEq, Eq, Structural)]
pub struct WriterState {
    pub rows_per_file: usize,
    pub batch_rows: usize,
    /// Rows not yet written.
    pub buffered: usize,
    /// Whether a file is open.
    pub open: bool,
    /// Rows in the open file.
    pub cur_rows: usize,
    /// Number of the next file.
    pub file_idx: u32,
    /// Rows written.
    pub total_rows: u64,
}

/// What a flush does.
#[derive(Clone, Copy, Debug, PartialEq, Eq, Structural)]
pub enum Flush {
    /// There is nothing to write.
    Nothing,
    /// Write to the open file.
    Append,
    /// Close the open file, if there is one, open the file of this number, and
    /// write to it.
    NewFile(u32),
}

impl WriterState {
    pub fn new(rows_per_file: usize, batch_rows: usize) -> (r: Self)
        ensures
            r == (WriterState {
                rows_per_file,
                batch_rows,
                buffered: 0,
                open: false,
                cur_rows: 0,
                file_idx: 0,
                total_rows: 0,
            }),
    {
        WriterState {
            rows_per_file,
            batch_rows,
            buffered: 0,
            open: false,
            cur_rows: 0,
            file_idx: 0,
            total_rows: 0,
        }
    }

    /// Take one row: whether the batch is full and must be flushed.
    pub fn push(&mut self) -> (full: bool)
        requires
            old(self).buffered < usize::MAX,
        ensures
            *final(self) == (WriterState {
                buffered: (old(self).buffered + 1) as usize,
                ..*old(self)
            }),
            full == (final(self).buffered >= final(self).batch_rows),
    {
        self.buffered = self.buffered + 1;
        self.buffered >= self.batch_rows
    }

    /// Flush what is buffered: a file that has its rows makes way for the next.
    pub fn flush(&mut self) -> (r: Flush)
        requires
            old(self).cur_rows + old(self).buffered <= usize::MAX,
            old(self).file_idx < u32::MAX,
            old(self).total_rows + old(self).buffered <= u64::MAX,
        ensures
            ({
                let was = *old(self);
                let fresh = !was.open || was.cur_rows >= was.rows_per_file;
                if was.buffered == 0 {
                    r == Flush::Nothing && *final(self) == was
                } else {
                    &&& r == (if fresh {
                        Flush::NewFile(was.file_idx)
                    } else {
                        Flush::Append
                    })
                    &&& *final(self) == (WriterState {
                        buffered: 0,
                        open: true,
                        cur_rows: (if fresh {
                            was.buffered as int
                        } else {
                            was.cur_rows + was.buffered
                        }) as usize,
                        file_idx: (if fresh {
                            was.file_idx + 1
                        } else {
                            was.file_idx as int
                        }) as u32,
                        total_rows: (was.total_rows + was.buffered) as u64,
                        ..was
                    })
                }
            }),
    {
        if self.buffered == 0 {
            return Flush::Nothing;
        }
        let mut r = Flush::Append;
        if !self.open || self.cur_rows >= self.rows_per_file {
            r = Flush::NewFile(self.file_idx);
            self.open = true;
            self.file_idx = self.file_idx + 1;
            self.cur_rows = 0;
        }
        self.cur_rows = self.cur_rows + self.buffered;
        self.total_rows = self.total_rows + self.buffered as u64;
        self.buffered = 0;
        r
    }
}

/// The files of a tradebook have names of their own, and every one is told as part of
/// a tradebook by its name.
pub proof fn lemma_part_names(i: u32, j: u32)
    ensures
        is_part_file(part_file(i as int)),
        part_file(i as int) == part_file(j as int) ==> i == j,
        part_file(i as int) == "part-"@ + padded(i as int, 5) + ".parquet"@,
        i < 100_000 ==> part_file(i as int).len() == 18,
{
    reveal_strlit("part-");
    reveal_strlit(".parquet");
    let a = part_file(i as int);
    let b = part_file(j as int);
    let p = padded(i as int, 5);
    let q = padded(j as int, 5);
    assert(a.take(5) =~= seq!['p', 'a', 'r', 't', '-']);
    assert(a.skip(a.len() - 8) =~= seq!['.', 'p', 'a', 'r', 'q', 'u', 'e', 't']);
    crate::text::lemma_read_padded(i as int, 5);
    crate::text::lemma_read_padded(j as int, 5);
    assert(a.subrange(5, a.len() - 8) =~= p);
    assert(b.subrange(5, b.len() - 8) =~= q);
    reveal_with_fuel(crate::text::decimal, 6);
}

} // verus!
