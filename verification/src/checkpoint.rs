//! Checkpoints: the open lots of every partition as of a cutoff day.
//!
//! A query over the days `lo` to `hi` needs the lots that were open when `lo`
//! began. A checkpoint at a cutoff before `lo` has them as of the cutoff, so
//! only the days after it are replayed. On disk a checkpoint is named after its
//! cutoff day; here a directory is the list of the names in it.

use std::collections::{HashMap, VecDeque};
use vstd::prelude::*;
use crate::fifo::{default_desk, fold_core, fold_frags, BucketRules, Lot, MatchPolicy, NoopSink};
use crate::matching::{fold, tallyable};
use crate::order::{ascending_i32, sorted_i32};
use crate::packed::{days_ascend, days_between, PackedTable, TableModel};
use crate::text::{
    chars_of, decimal, magnitude, padded, parse_i32, parse_u32, parse_u64, push_nat, push_padded,
    read_int, read_nat, within, zeros,
};

verus! {

broadcast use vstd::std_specs::hash::group_hash_axioms;

/// Open lots as of the end of a day, by partition. Partitions without open lots
/// are not kept.
#[derive(Clone, Debug)]
pub struct Checkpoint {
    pub cutoff_day: i32,
    pub lots: HashMap<u128, Vec<Lot>>,
}

impl View for Checkpoint {
    type V = Map<u128, Seq<Lot>>;

    open spec fn view(&self) -> Map<u128, Seq<Lot>> {
        self.lots@.map_values(|v: Vec<Lot>| v@)
    }
}

/// The number that stands for a partition.
pub open spec fn key_of(client: u64, symbol: u32) -> u128 {
    (client * 0x1_0000_0000 + symbol) as u128
}

/// The number that stands for a partition: the client above the symbol.
pub fn part_key(client: u64, symbol: u32) -> (k: u128)
    ensures
        k == key_of(client, symbol),
        k == client * 0x1_0000_0000 + symbol,
{
    client as u128 * 0x1_0000_0000 + symbol as u128
}

/// Distinct partitions have distinct numbers.
pub proof fn lemma_key_injective(c1: u64, s1: u32, c2: u64, s2: u32)
    requires
        key_of(c1, s1) == key_of(c2, s2),
    ensures
        c1 == c2,
        s1 == s2,
{
}

/// The client and symbol that a partition's number stands for.
pub fn split_key(k: u128) -> (r: (u64, u32))
    requires
        k <= key_of(u64::MAX, u32::MAX),
    ensures
        k == key_of(r.0, r.1),
        k == r.0 * 0x1_0000_0000 + r.1,
{
    ((k / 0x1_0000_0000) as u64, (k % 0x1_0000_0000) as u32)
}

/// A partition as text.
pub open spec fn label_of(client: u64, symbol: u32) -> Seq<char> {
    decimal(client as nat) + seq![':'] + decimal(symbol as nat)
}

/// A partition as text, client and symbol with a colon between them.
pub fn part_label(client: u64, symbol: u32) -> (r: String)
    ensures
        r@ == label_of(client, symbol),
        r@ == decimal(client as nat) + seq![':'] + decimal(symbol as nat),
{
    let mut s = String::new();
    push_nat(&mut s, client);
    s.push(':');
    push_nat(&mut s, symbol as u64);
    assert(s@ =~= label_of(client, symbol));
    s
}

/// The partition that a text stands for, if it is a partition as text.
pub fn parse_label(text: &str) -> (r: Option<(u64, u32)>)
    ensures
        match r {
            Some((c, s)) => text@ == label_of(c, s),
            None => forall|c: u64, s: u32| text@ != #[trigger] label_of(c, s),
        },
{
    let cs: Vec<char> = chars_of(text);
    let n: usize = cs.len();
    let mut at: usize = 0;
    while at < n && cs[at] != ':'
        invariant
            at <= n,
            n == cs@.len(),
            forall|k: int| 0 <= k < at ==> cs@[k] != ':',
        decreases n - at,
    {
        at = at + 1;
    }
    if at < n {
        let left: Option<u64> = parse_u64(&cs, 0, at);
        let right: Option<u32> = parse_u32(&cs, at + 1, n);
        match (left, right) {
            (Some(client), Some(symbol)) => {
                let back: Vec<char> = chars_of(part_label(client, symbol).as_str());
                if same_chars(&back, &cs) {
                    return Some((client, symbol));
                }
            },
            _ => {},
        }
    }
    proof {
        assert forall|c: u64, s: u32| text@ != #[trigger] label_of(c, s) by {
            if text@ == label_of(c, s) {
                lemma_label_parts(c, s);
                let len = decimal(c as nat).len();
                assert(cs@[len as int] == ':');
                assert(at == len) by {
                    if at > len {
                        assert(cs@[len as int] != ':');
                    }
                }
                assert(cs@.subrange(0, at as int) =~= decimal(c as nat));
                assert(cs@.subrange(at + 1, n as int) =~= decimal(s as nat));
            }
        }
    }
    None
}

fn same_chars(a: &Vec<char>, b: &Vec<char>) -> (r: bool)
    ensures
        r == (a@ == b@),
{
    if a.len() != b.len() {
        return false;
    }
    let mut i: usize = 0;
    while i < a.len()
        invariant
            i <= a@.len(),
            a@.len() == b@.len(),
            forall|k: int| 0 <= k < i ==> a@[k] == b@[k],
        decreases a@.len() - i,
    {
        if a[i] != b[i] {
            return false;
        }
        i = i + 1;
    }
    assert(a@ =~= b@);
    true
}

/// Before the colon of a label stand the client's digits, after it the symbol's.
proof fn lemma_label_parts(c: u64, s: u32)
    ensures
        ({
            let text = label_of(c, s);
            let len = decimal(c as nat).len() as int;
            &&& text.len() == len + 1 + decimal(s as nat).len()
            &&& text[len] == ':'
            &&& forall|k: int| 0 <= k < len ==> text[k] != ':'
            &&& text.subrange(0, len) == decimal(c as nat)
            &&& text.subrange(len + 1, text.len() as int) == decimal(s as nat)
        }),
        read_nat(decimal(c as nat)) == Some(c as int),
        read_nat(decimal(s as nat)) == Some(s as int),
{
    let text = label_of(c, s);
    let ds = decimal(c as nat);
    let len = ds.len() as int;
    crate::text::lemma_decimal(c as nat);
    crate::text::lemma_decimal(s as nat);
    assert(crate::text::is_digit(ds[0]));
    assert(crate::text::is_digit(decimal(s as nat)[0]));
    assert forall|k: int| 0 <= k < len implies text[k] != ':' by {
        assert(text[k] == ds[k]);
        assert(crate::text::is_digit(ds[k]));
    }
    assert(text.subrange(0, len) =~= ds);
    assert(text.subrange(len + 1, text.len() as int) =~= decimal(s as nat));
}

/// Two partitions written alike are the same.
pub proof fn lemma_label_injective(c1: u64, s1: u32, c2: u64, s2: u32)
    requires
        label_of(c1, s1) == label_of(c2, s2),
    ensures
        c1 == c2,
        s1 == s2,
{
    lemma_label_parts(c1, s1);
    lemma_label_parts(c2, s2);
    let text = label_of(c1, s1);
    let a = decimal(c1 as nat).len() as int;
    let b = decimal(c2 as nat).len() as int;
    assert(text[a] == ':' && text[b] == ':');
    assert(a == b);
}

/// The lots of partition `p` that are open at the end of `cutoff`.
pub open spec fn residual(m: TableModel, p: int, cutoff: i32) -> Seq<Lot> {
    fold(
        default_desk(m.clients[p], m.symbols[p]),
        Seq::empty(),
        days_between(m.part(p), i32::MIN as int, cutoff as int),
    ).0
}

/// The open lots of the first `n` partitions.
pub open spec fn snapshot(m: TableModel, cutoff: i32, n: int) -> Map<u128, Seq<Lot>>
    decreases n,
{
    if n <= 0 {
        Map::empty()
    } else {
        let before = snapshot(m, cutoff, n - 1);
        let lots = residual(m, n - 1, cutoff);
        if lots.len() == 0 {
            before
        } else {
            before.insert(key_of(m.clients[n - 1], m.symbols[n - 1]), lots)
        }
    }
}

/// Every partition is in day order, and folding it up to `cutoff` stays within
/// the machine's integers.
pub open spec fn can_snapshot(m: TableModel, cutoff: i32) -> bool {
    &&& m.wf()
    &&& forall|p: int|
        0 <= p < m.n_parts ==> days_ascend(#[trigger] m.part(p)) && tallyable(
            fold_frags(
                default_desk(m.clients[p], m.symbols[p]),
                Seq::empty(),
                days_between(m.part(p), i32::MIN as int, cutoff as int),
                None,
            ),
        )
}

fn to_vec(carry: &VecDeque<Lot>) -> (v: Vec<Lot>)
    ensures
        v@ == carry@,
{
    let mut v: Vec<Lot> = Vec::new();
    let mut i: usize = 0;
    while i < carry.len()
        invariant
            i <= carry@.len(),
            v@ == carry@.take(i as int),
        decreases carry@.len() - i,
    {
        v.push(carry[i]);
        i = i + 1;
        assert(v@ =~= carry@.take(i as int));
    }
    assert(v@ =~= carry@);
    v
}

impl Checkpoint {
    /// The open lots of every partition at the end of `cutoff_day`.
    pub fn build(table: &PackedTable, cutoff_day: i32) -> (r: Self)
        requires
            can_snapshot(table@, cutoff_day),
        ensures
            r.cutoff_day == cutoff_day,
            r@ == snapshot(table@, cutoff_day, table@.n_parts),
    {
        let pc = table.part_client();
        let ps = table.part_symbol();
        let ghost m = table@;
        let mut lots: HashMap<u128, Vec<Lot>> = HashMap::new();
        let mut p: usize = 0;
        assert(lots@.map_values(|v: Vec<Lot>| v@) =~= Map::<u128, Seq<Lot>>::empty());
        while p < pc.len()
            invariant
                m == table@,
                can_snapshot(m, cutoff_day),
                pc@ == m.clients,
                ps@ == m.symbols,
                p <= pc@.len(),
                lots@.map_values(|v: Vec<Lot>| v@) == snapshot(m, cutoff_day, p as int),
            decreases pc@.len() - p,
        {
            let ghost before = lots@;
            let recs = table.partition(p);
            assert(recs@ == m.part(p as int));
            proof {
                crate::packed::lemma_cut_mono(recs@, i32::MIN as int, cutoff_day + 1);
            }
            let in_scope = table.day_range(recs, i32::MIN, cutoff_day);
            if in_scope.len() == 0 {
                p = p + 1;
                continue;
            }
            let mut carry: VecDeque<Lot> = VecDeque::new();
            let ghost frags = fold_frags(
                default_desk(pc@[p as int], ps@[p as int]),
                Seq::empty(),
                in_scope@,
                None,
            );
            let mut sink = NoopSink;
            proof {
                crate::fifo::lemma_noop_accepts(sink, frags);
            }
            let _ = fold_core(
                pc[p],
                ps[p],
                &mut carry,
                in_scope,
                &mut sink,
                None,
                &BucketRules::default(),
                MatchPolicy::Fifo,
            );
            if carry.len() > 0 {
                let kept = to_vec(&carry);
                lots.insert(part_key(pc[p], ps[p]), kept);
                assert(lots@.map_values(|v: Vec<Lot>| v@) =~= before.map_values(
                    |v: Vec<Lot>| v@,
                ).insert(key_of(pc@[p as int], ps@[p as int]), carry@));
            }
            p = p + 1;
        }
        Checkpoint { cutoff_day, lots }
    }

    /// The lots that a partition carries in; none if it has none.
    pub open spec fn carried(self, client: u64, symbol: u32) -> Seq<Lot> {
        if self@.dom().contains(key_of(client, symbol)) {
            self@[key_of(client, symbol)]
        } else {
            Seq::empty()
        }
    }

    /// The lots that a partition carries in; none if it has none.
    pub fn carry_for(&self, client: u64, symbol: u32) -> (r: VecDeque<Lot>)
        ensures
            r@ == self.carried(client, symbol),
            ({
                let key = (client * 0x1_0000_0000 + symbol) as u128;
                &&& self@.dom().contains(key) ==> r@ == self@[key]
                &&& !self@.dom().contains(key) ==> r@.len() == 0
            }),
    {
        let mut r: VecDeque<Lot> = VecDeque::new();
        match self.lots.get(&part_key(client, symbol)) {
            Some(v) => {
                let mut i: usize = 0;
                while i < v.len()
                    invariant
                        i <= v@.len(),
                        r@ == v@.take(i as int),
                    decreases v@.len() - i,
                {
                    r.push_back(v[i]);
                    i = i + 1;
                    assert(r@ =~= v@.take(i as int));
                }
                assert(r@ =~= v@);
            },
            None => {},
        }
        r
    }

    /// The name of the checkpoint's file.
    pub fn file_name(&self) -> (r: String)
        ensures
            r@ == name_of(self.cutoff_day),
    {
        ckpt_name(self.cutoff_day)
    }
}

// ---------------------------------------------------------------------------
// Names
// ---------------------------------------------------------------------------

pub open spec fn name_prefix() -> Seq<char> {
    seq!['c', 'k', 'p', 't', '-']
}

pub open spec fn name_suffix() -> Seq<char> {
    seq!['.', 'j', 's', 'o', 'n']
}

/// The name of the checkpoint at `cutoff`.
pub open spec fn name_of(cutoff: i32) -> Seq<char> {
    name_prefix() + padded(cutoff as int, 8) + name_suffix()
}

/// The name of the checkpoint at `cutoff`: the day in eight digits or more.
pub fn ckpt_name(cutoff: i32) -> (r: String)
    ensures
        r@ == name_of(cutoff),
{
    let mut s = String::new();
    s.push('c');
    s.push('k');
    s.push('p');
    s.push('t');
    s.push('-');
    assert(s@ =~= name_prefix());
    push_padded(&mut s, cutoff as i64, 8);
    let ghost mid = s@;
    s.push('.');
    s.push('j');
    s.push('s');
    s.push('o');
    s.push('n');
    assert(s@ =~= mid + name_suffix());
    s
}

/// Whether a name is that of a checkpoint.
pub open spec fn is_ckpt_name(s: Seq<char>) -> bool {
    &&& s.len() >= 10
    &&& s.take(5) == name_prefix()
    &&& s.skip(s.len() - 5) == name_suffix()
}

/// `s` without the zeros in front.
pub open spec fn trimmed(s: Seq<char>) -> Seq<char>
    decreases s.len(),
{
    if s.len() > 0 && s[0] == '0' {
        trimmed(s.skip(1))
    } else {
        s
    }
}

/// The cutoff day that a checkpoint's name tells; 0 where it tells none.
pub open spec fn cutoff_of(s: Seq<char>) -> i32 {
    match within(
        read_int(trimmed(s.subrange(5, s.len() - 5))),
        i32::MIN as int,
        i32::MAX as int,
    ) {
        Some(v) => v as i32,
        None => 0,
    }
}

fn check_name(cs: &Vec<char>) -> (r: bool)
    ensures
        r == is_ckpt_name(cs@),
{
    let n: usize = cs.len();
    if n < 10 {
        return false;
    }
    let a = cs[0] == 'c' && cs[1] == 'k' && cs[2] == 'p' && cs[3] == 't' && cs[4] == '-';
    let b = cs[n - 5] == '.' && cs[n - 4] == 'j' && cs[n - 3] == 's' && cs[n - 2] == 'o' && cs[n
        - 1] == 'n';
    proof {
        let p = cs@.take(5);
        let q = cs@.skip(n - 5);
        assert(p[0] == cs@[0] && p[1] == cs@[1] && p[2] == cs@[2] && p[3] == cs@[3] && p[4]
            == cs@[4]);
        assert(q[0] == cs@[n - 5] && q[1] == cs@[n - 4] && q[2] == cs@[n - 3] && q[3] == cs@[n - 2]
            && q[4] == cs@[n - 1]);
        if a {
            assert(p =~= name_prefix());
        }
        if b {
            assert(q =~= name_suffix());
        }
    }
    a && b
}

fn read_cutoff(cs: &Vec<char>) -> (r: i32)
    requires
        is_ckpt_name(cs@),
    ensures
        r == cutoff_of(cs@),
{
    let hi: usize = cs.len() - 5;
    let mut lo: usize = 5;
    let ghost mid = cs@.subrange(5, hi as int);
    while lo < hi && cs[lo] == '0'
        invariant
            5 <= lo <= hi <= cs@.len(),
            mid == cs@.subrange(5, hi as int),
            trimmed(mid) == trimmed(cs@.subrange(lo as int, hi as int)),
        decreases hi - lo,
    {
        assert(cs@.subrange(lo as int, hi as int).skip(1) =~= cs@.subrange(lo + 1, hi as int));
        lo = lo + 1;
    }
    assert(trimmed(mid) =~= cs@.subrange(lo as int, hi as int)) by {
        let rest = cs@.subrange(lo as int, hi as int);
        if lo < hi {
            assert(rest[0] == cs@[lo as int]);
        }
    }
    match parse_i32(cs, lo, hi) {
        Some(v) => v,
        None => 0,
    }
}

/// The cutoffs that the names of a directory tell, in the order of the names.
pub open spec fn listed(names: Seq<String>) -> Seq<i32>
    decreases names.len(),
{
    if names.len() == 0 {
        Seq::empty()
    } else {
        let before = listed(names.drop_last());
        if is_ckpt_name(names.last()@) {
            before.push(cutoff_of(names.last()@))
        } else {
            before
        }
    }
}

/// The names of checkpoints among the names of a directory.
pub open spec fn ckpt_names(names: Seq<String>) -> Seq<Seq<char>>
    decreases names.len(),
{
    if names.len() == 0 {
        Seq::empty()
    } else {
        let before = ckpt_names(names.drop_last());
        if is_ckpt_name(names.last()@) {
            before.push(names.last()@)
        } else {
            before
        }
    }
}

/// A directory of checkpoints.
#[derive(Debug)]
pub struct CheckpointStore {
    pub dir: String,
}

/// What building checkpoints does to a directory.
#[derive(Debug)]
pub struct Rebuild {
    /// Files to remove first.
    pub remove: Vec<String>,
    /// Checkpoints to write, each under its name.
    pub write: Vec<Checkpoint>,
}

impl CheckpointStore {
    pub fn new(dir: String) -> (r: Self)
        ensures
            r.dir@ == dir@,
    {
        CheckpointStore { dir }
    }

    /// The cutoff days in the directory, ascending.
    pub fn cutoffs(&self, names: &Vec<String>) -> (r: Vec<i32>)
        ensures
            ascending_i32(r@),
            forall|i: int, j: int| 0 <= i <= j < r@.len() ==> r@[i] <= r@[j],
            r@.to_multiset() == listed(names@).to_multiset(),
    {
        let mut v: Vec<i32> = Vec::new();
        let mut i: usize = 0;
        assert(names@.take(0) =~= Seq::empty());
        while i < names.len()
            invariant
                i <= names@.len(),
                v@ == listed(names@.take(i as int)),
            decreases names@.len() - i,
        {
            assert(names@.take(i + 1).drop_last() =~= names@.take(i as int));
            let cs: Vec<char> = chars_of(names[i].as_str());
            if check_name(&cs) {
                v.push(read_cutoff(&cs));
            }
            i = i + 1;
        }
        assert(names@.take(names@.len() as int) =~= names@);
        sorted_i32(&v)
    }

    /// The files that clearing the directory removes: its checkpoints, and
    /// nothing else.
    pub fn clear(&self, names: &Vec<String>) -> (r: Vec<String>)
        ensures
            r@.len() == ckpt_names(names@).len(),
            forall|i: int| 0 <= i < r@.len() ==> (#[trigger] r@[i])@ == ckpt_names(names@)[i],
    {
        let mut r: Vec<String> = Vec::new();
        let mut i: usize = 0;
        assert(names@.take(0) =~= Seq::empty());
        while i < names.len()
            invariant
                i <= names@.len(),
                r@.len() == ckpt_names(names@.take(i as int)).len(),
                forall|k: int|
                    0 <= k < r@.len() ==> (#[trigger] r@[k])@ == ckpt_names(
                        names@.take(i as int),
                    )[k],
            decreases names@.len() - i,
        {
            assert(names@.take(i + 1).drop_last() =~= names@.take(i as int));
            let cs: Vec<char> = chars_of(names[i].as_str());
            if check_name(&cs) {
                r.push(names[i].clone());
            }
            i = i + 1;
        }
        assert(names@.take(names@.len() as int) =~= names@);
        r
    }

    /// Rebuild the directory: remove the checkpoints in it, which may stem from
    /// other data, and write one for each cutoff.
    pub fn build_periodic(&self, names: &Vec<String>, table: &PackedTable, cutoffs: &[i32]) -> (r:
        Rebuild)
        requires
            forall|i: int|
                0 <= i < cutoffs@.len() ==> can_snapshot(table@, #[trigger] cutoffs@[i]),
        ensures
            r.remove@.len() == ckpt_names(names@).len(),
            forall|i: int|
                0 <= i < r.remove@.len() ==> (#[trigger] r.remove@[i])@ == ckpt_names(names@)[i],
            r.write@.len() == cutoffs@.len(),
            forall|i: int|
                0 <= i < cutoffs@.len() ==> {
                    &&& (#[trigger] r.write@[i]).cutoff_day == cutoffs@[i]
                    &&& r.write@[i]@ == snapshot(table@, cutoffs@[i], table@.n_parts)
                },
    {
        let remove = self.clear(names);
        let mut write: Vec<Checkpoint> = Vec::new();
        let mut i: usize = 0;
        while i < cutoffs.len()
            invariant
                i <= cutoffs@.len(),
                write@.len() == i,
                forall|i: int|
                    0 <= i < cutoffs@.len() ==> can_snapshot(table@, #[trigger] cutoffs@[i]),
                forall|k: int|
                    0 <= k < i ==> {
                        &&& (#[trigger] write@[k]).cutoff_day == cutoffs@[k]
                        &&& write@[k]@ == snapshot(table@, cutoffs@[k], table@.n_parts)
                    },
            decreases cutoffs@.len() - i,
        {
            write.push(Checkpoint::build(table, cutoffs[i]));
            i = i + 1;
        }
        Rebuild { remove, write }
    }

    /// The latest cutoff before `before_day`, and so the file to load for a range
    /// that starts there.
    pub fn load_nearest_before(&self, names: &Vec<String>, before_day: i32) -> (r: Option<i32>)
        ensures
            match r {
                Some(c) => {
                    &&& c < before_day
                    &&& listed(names@).contains(c)
                    &&& forall|k: i32| #[trigger] listed(names@).contains(k) && k < before_day ==> k
                        <= c
                },
                None => forall|k: i32| #[trigger]
                    listed(names@).contains(k) ==> k >= before_day,
            },
    {
        broadcast use vstd::seq_lib::group_to_multiset_ensures;

        let v = self.cutoffs(names);
        proof {
            lemma_same_members(v@, listed(names@));
        }
        let mut i: usize = v.len();
        while i > 0
            invariant
                i <= v@.len(),
                ascending_i32(v@),
                forall|k: i32| v@.contains(k) <==> #[trigger] listed(names@).contains(k),
                forall|k: int| i <= k < v@.len() ==> v@[k] >= before_day,
            decreases i,
        {
            let c: i32 = v[i - 1];
            if c < before_day {
                assert(v@.contains(c));
                assert forall|k: i32| #[trigger] listed(names@).contains(k) && k
                    < before_day implies k <= c by {
                    assert(v@.contains(k));
                    let j = choose|j: int| 0 <= j < v@.len() && v@[j] == k;
                    assert(v@[j] == k);
                }
                return Some(c);
            }
            i = i - 1;
        }
        assert forall|k: i32| #[trigger] listed(names@).contains(k) implies k >= before_day by {
            assert(v@.contains(k));
            let j = choose|j: int| 0 <= j < v@.len() && v@[j] == k;
            assert(v@[j] == k);
        }
        None
    }

    /// The cutoffs that a correction on `correction_day` invalidates, ascending.
    pub fn invalidated_by(&self, names: &Vec<String>, correction_day: i32) -> (r: Vec<i32>)
        ensures
            ascending_i32(r@),
            forall|i: int, j: int| 0 <= i <= j < r@.len() ==> r@[i] <= r@[j],
            r@.to_multiset() == listed(names@).to_multiset().filter(|c: i32| c >= correction_day),
    {
        broadcast use vstd::seq_lib::group_to_multiset_ensures;

        let v = self.cutoffs(names);
        let mut r: Vec<i32> = Vec::new();
        let mut i: usize = 0;
        assert(v@.take(0) =~= Seq::empty());
        assert(r@.to_multiset() =~= v@.take(0).to_multiset().filter(
            |c: i32| c >= correction_day,
        ));
        while i < v.len()
            invariant
                i <= v@.len(),
                ascending_i32(v@),
                ascending_i32(r@),
                forall|a: int, b: int| 0 <= a < r@.len() && i <= b < v@.len() ==> r@[a] <= v@[b],
                r@.to_multiset() == v@.take(i as int).to_multiset().filter(
                    |c: i32| c >= correction_day,
                ),
            decreases v@.len() - i,
        {
            broadcast use vstd::seq_lib::group_to_multiset_ensures;

            assert(v@.take(i + 1) =~= v@.take(i as int).push(v@[i as int]));
            if v[i] >= correction_day {
                r.push(v[i]);
            }
            i = i + 1;
            assert(r@.to_multiset() =~= v@.take(i as int).to_multiset().filter(
                |c: i32| c >= correction_day,
            ));
        }
        assert(v@.take(v@.len() as int) =~= v@);
        r
    }
}

proof fn lemma_same_members(a: Seq<i32>, b: Seq<i32>)
    requires
        a.to_multiset() == b.to_multiset(),
    ensures
        forall|k: i32| a.contains(k) <==> #[trigger] b.contains(k),
{
    broadcast use vstd::seq_lib::group_to_multiset_ensures;

    assert forall|k: i32| a.contains(k) <==> #[trigger] b.contains(k) by {
        assert(a.contains(k) <==> a.to_multiset().count(k) > 0);
        assert(b.contains(k) <==> b.to_multiset().count(k) > 0);
    }
}

// ---------------------------------------------------------------------------
// Laws
// ---------------------------------------------------------------------------

proof fn lemma_trimmed_zeros(k: int, s: Seq<char>)
    ensures
        trimmed(zeros(k) + s) == trimmed(s),
    decreases k,
{
    if k > 0 {
        lemma_trimmed_zeros(k - 1, s);
        assert((zeros(k) + s).skip(1) =~= zeros(k - 1) + s);
        assert((zeros(k) + s)[0] == '0');
    } else {
        assert(zeros(k) + s =~= s);
    }
}

/// A checkpoint's name tells its cutoff day, whatever day it is.
pub proof fn lemma_name_tells_cutoff(c: i32)
    ensures
        is_ckpt_name(name_of(c)),
        cutoff_of(name_of(c)) == c,
{
    let s = name_of(c);
    let mid = padded(c as int, 8);
    assert(s.take(5) =~= name_prefix());
    assert(s.skip(s.len() - 5) =~= name_suffix());
    assert(s.subrange(5, s.len() - 5) =~= mid);
    crate::text::lemma_read_padded(c as int, 8);
    crate::text::lemma_decimal(magnitude(c as int));
    let ds = decimal(magnitude(c as int));
    if c < 0 {
        assert(mid[0] == '-');
        assert(trimmed(mid) == mid);
    } else {
        let fill = 8 - ds.len();
        assert(mid =~= zeros(fill) + ds);
        lemma_trimmed_zeros(fill, ds);
        if c == 0 {
            assert(ds.skip(1) =~= Seq::empty());
            reveal_with_fuel(trimmed, 3);
        } else {
            assert(trimmed(ds) == ds);
            assert(crate::text::is_digit(ds[0]));
        }
    }
}

/// Two checkpoints share a name only if they share their cutoff day.
pub proof fn lemma_names_distinct(a: i32, b: i32)
    requires
        name_of(a) == name_of(b),
    ensures
        a == b,
{
    lemma_name_tells_cutoff(a);
    lemma_name_tells_cutoff(b);
}

/// `now` is the directory `was` with its checkpoints removed and one written
/// under the name of each cutoff.
pub open spec fn rebuilt(was: Seq<String>, cutoffs: Seq<i32>, now: Seq<String>) -> bool {
    forall|s: Seq<char>|
        #![trigger is_ckpt_name(s)]
        (exists|i: int| 0 <= i < now.len() && (#[trigger] now[i])@ == s) <==> ((exists|i: int|
            0 <= i < was.len() && (#[trigger] was[i])@ == s && !is_ckpt_name(s)) || exists|j: int|
            0 <= j < cutoffs.len() && name_of(#[trigger] cutoffs[j]) == s)
}

/// After a rebuild the directory holds checkpoints at the new cutoffs and at no
/// others: none of those that were there before lingers.
pub proof fn lemma_rebuild_leaves_only_new(was: Seq<String>, cutoffs: Seq<i32>, now: Seq<String>)
    requires
        rebuilt(was, cutoffs, now),
    ensures
        forall|c: i32| #[trigger] listed(now).contains(c) <==> cutoffs.contains(c),
{
    assert forall|c: i32| #[trigger] listed(now).contains(c) <==> cutoffs.contains(c) by {
        lemma_listed(now, c);
        if listed(now).contains(c) {
            let i = choose|i: int|
                0 <= i < now.len() && is_ckpt_name((#[trigger] now[i])@) && cutoff_of(now[i]@) == c;
            let s = now[i]@;
            assert(is_ckpt_name(s));
            assert(exists|i: int| 0 <= i < now.len() && (#[trigger] now[i])@ == s);
            let j = choose|j: int| 0 <= j < cutoffs.len() && name_of(#[trigger] cutoffs[j]) == s;
            lemma_name_tells_cutoff(cutoffs[j]);
            assert(cutoffs[j] == c);
        }
        if cutoffs.contains(c) {
            let j = choose|j: int| 0 <= j < cutoffs.len() && cutoffs[j] == c;
            let s = name_of(c);
            lemma_name_tells_cutoff(c);
            assert(is_ckpt_name(s));
            assert(name_of(cutoffs[j]) == s);
            let i = choose|i: int| 0 <= i < now.len() && (#[trigger] now[i])@ == s;
            assert(is_ckpt_name(now[i]@) && cutoff_of(now[i]@) == c);
        }
    }
}

/// A cutoff is listed if some checkpoint's name tells it.
proof fn lemma_listed(names: Seq<String>, c: i32)
    ensures
        listed(names).contains(c) <==> exists|i: int|
            0 <= i < names.len() && is_ckpt_name((#[trigger] names[i])@) && cutoff_of(names[i]@)
                == c,
    decreases names.len(),
{
    if names.len() > 0 {
        let head = names.drop_last();
        let last = names.last();
        lemma_listed(head, c);
        let before = listed(head);
        let all = listed(names);
        if before.contains(c) {
            let k = choose|k: int| 0 <= k < before.len() && before[k] == c;
            assert(all[k] == c);
            let i = choose|i: int|
                0 <= i < head.len() && is_ckpt_name((#[trigger] head[i])@) && cutoff_of(head[i]@)
                    == c;
            assert(names[i] == head[i]);
        }
        if is_ckpt_name(last@) && cutoff_of(last@) == c {
            assert(all[all.len() - 1] == c);
            assert(names[names.len() - 1] == last);
        }
        if all.contains(c) && !before.contains(c) {
            let k = choose|k: int| 0 <= k < all.len() && all[k] == c;
            if k < before.len() {
                assert(before[k] == c);
            }
            assert(names[names.len() - 1] == last);
        }
        if exists|i: int|
            0 <= i < names.len() && is_ckpt_name((#[trigger] names[i])@) && cutoff_of(names[i]@)
                == c {
            let i = choose|i: int|
                0 <= i < names.len() && is_ckpt_name((#[trigger] names[i])@) && cutoff_of(
                    names[i]@,
                ) == c;
            if i < head.len() {
                assert(head[i] == names[i]);
                assert(before.contains(c));
            }
        }
    }
}

/// In a table that holds each partition once, a checkpoint has for each
/// partition the lots that it left open at the cutoff.
pub proof fn lemma_snapshot_holds_residuals(m: TableModel, cutoff: i32, n: int, p: int)
    requires
        m.distinct(),
        0 <= p < m.n_parts,
        0 <= n <= m.n_parts,
    ensures
        ({
            let k = key_of(m.clients[p], m.symbols[p]);
            let s = snapshot(m, cutoff, n);
            &&& s.dom().contains(k) <==> (p < n && residual(m, p, cutoff).len() > 0)
            &&& s.dom().contains(k) ==> s[k] == residual(m, p, cutoff)
        }),
    decreases n,
{
    if n > 0 {
        lemma_snapshot_holds_residuals(m, cutoff, n - 1, p);
        let q = n - 1;
        if q != p {
            if key_of(m.clients[p], m.symbols[p]) == key_of(m.clients[q], m.symbols[q]) {
                lemma_key_injective(m.clients[p], m.symbols[p], m.clients[q], m.symbols[q]);
                assert(m.clients[p] == m.clients[q]);
            }
        }
    }
}

/// A checkpoint holds nothing but what partitions left open: each of its keys is that
/// of a partition with open lots.
pub proof fn lemma_snapshot_holds_no_more(m: TableModel, cutoff: i32, n: int, key: u128) -> (p: int)
    requires
        snapshot(m, cutoff, n).dom().contains(key),
    ensures
        0 <= p < n,
        key == key_of(m.clients[p], m.symbols[p]),
        residual(m, p, cutoff).len() > 0,
    decreases n,
{
    if residual(m, n - 1, cutoff).len() > 0 && key == key_of(m.clients[n - 1], m.symbols[n - 1]) {
        n - 1
    } else {
        lemma_snapshot_holds_no_more(m, cutoff, n - 1, key)
    }
}

/// A checkpoint's file is named after its day: "ckpt-", the day in eight digits or
/// more, a sign before them where it lies before the epoch, and ".json".
pub proof fn lemma_name_of_checkpoint(c: i32)
    ensures
        name_of(c) == "ckpt-"@ + padded(c as int, 8) + ".json"@,
        0 <= c < 100_000_000 ==> name_of(c).len() == 18,
{
    reveal_strlit("ckpt-");
    reveal_strlit(".json");
    assert("ckpt-"@ =~= name_prefix());
    assert(".json"@ =~= name_suffix());
    reveal_with_fuel(decimal, 9);
}

/// A name with "ckpt-" in front and ".json" behind is that of a checkpoint, whatever
/// stands between, and no other is.
pub proof fn lemma_checkpoint_names(s: Seq<char>)
    ensures
        is_ckpt_name(s) <==> exists|mid: Seq<char>| s == #[trigger] ("ckpt-"@ + mid) + ".json"@,
{
    reveal_strlit("ckpt-");
    reveal_strlit(".json");
    assert("ckpt-"@ =~= name_prefix());
    assert(".json"@ =~= name_suffix());
    if is_ckpt_name(s) {
        let mid = s.subrange(5, s.len() - 5);
        assert(s =~= ("ckpt-"@ + mid) + ".json"@) by {
            assert forall|i: int| 0 <= i < s.len() implies s[i] == (("ckpt-"@ + mid)
                + ".json"@)[i] by {
                if i < 5 {
                    assert(s.take(5)[i] == s[i]);
                } else if i >= s.len() - 5 {
                    assert(s.skip(s.len() - 5)[i - (s.len() - 5)] == s[i]);
                }
            }
        }
    }
    if exists|mid: Seq<char>| s == #[trigger] ("ckpt-"@ + mid) + ".json"@ {
        let mid = choose|mid: Seq<char>| s == #[trigger] ("ckpt-"@ + mid) + ".json"@;
        assert(s.take(5) =~= name_prefix());
        assert(s.skip(s.len() - 5) =~= name_suffix());
    }
}

/// A checkpoint's name tells its day however many zeros stand in front of it.
pub proof fn lemma_zeros_tell_the_same_day(c: i32, k: int)
    requires
        c >= 0,
    ensures
        cutoff_of(name_prefix() + (zeros(k) + decimal(c as nat)) + name_suffix()) == c,
{
    let ds = decimal(c as nat);
    let s = name_prefix() + (zeros(k) + ds) + name_suffix();
    assert(s.subrange(5, s.len() - 5) =~= zeros(k) + ds);
    lemma_trimmed_zeros(k, ds);
    crate::text::lemma_decimal(c as nat);
    crate::text::lemma_read_padded(c as int, 0);
    if c == 0 {
        assert(ds.skip(1) =~= Seq::empty());
        reveal_with_fuel(trimmed, 3);
    } else {
        assert(trimmed(ds) == ds);
        assert(crate::text::is_digit(ds[0]));
        assert(crate::text::int_text(c as int) =~= ds);
    }
}

/// One more name in the directory lists one more day where it is a checkpoint's, the
/// day that it tells, and nothing where it is not; and clearing removes those names
/// and no others.
pub proof fn lemma_name_is_listed(names: Seq<String>, s: String)
    ensures
        listed(Seq::empty()).len() == 0,
        ckpt_names(Seq::empty()).len() == 0,
        is_ckpt_name(s@) ==> listed(names.push(s)) == listed(names).push(cutoff_of(s@)),
        !is_ckpt_name(s@) ==> listed(names.push(s)) == listed(names),
        is_ckpt_name(s@) ==> ckpt_names(names.push(s)) == ckpt_names(names).push(s@),
        !is_ckpt_name(s@) ==> ckpt_names(names.push(s)) == ckpt_names(names),
{
    assert(names.push(s).drop_last() =~= names);
}

/// A partition's number has the client above its low 32 bits and the symbol in them,
/// and its text the client before a colon and the symbol behind.
pub proof fn lemma_partition_by_number(client: u64, symbol: u32)
    ensures
        key_of(client, symbol) == client * 0x1_0000_0000 + symbol,
        key_of(client, symbol) / 0x1_0000_0000 == client,
        key_of(client, symbol) % 0x1_0000_0000 == symbol,
        label_of(client, symbol) == decimal(client as nat) + seq![':'] + decimal(symbol as nat),
{
}

/// The lots that a partition carries in are those kept under its number.
pub proof fn lemma_carried_by_number(c: Checkpoint, client: u64, symbol: u32)
    ensures
        ({
            let key = (client * 0x1_0000_0000 + symbol) as u128;
            &&& c@.dom().contains(key) ==> c.carried(client, symbol) == c@[key]
            &&& !c@.dom().contains(key) ==> c.carried(client, symbol).len() == 0
        }),
{
}

proof fn lemma_trimmed_front(s: Seq<char>) -> (k: int)
    ensures
        0 <= k <= s.len(),
        s == zeros(k) + trimmed(s),
        trimmed(s) == s.skip(k),
        k < s.len() ==> s[k] != '0',
    decreases s.len(),
{
    if s.len() > 0 && s[0] == '0' {
        let k = lemma_trimmed_front(s.skip(1));
        assert(s =~= zeros(k + 1) + trimmed(s)) by {
            assert forall|i: int| 0 <= i < s.len() implies s[i] == (zeros(k + 1) + trimmed(s))[i] by {
                if i > 0 {
                    assert(s.skip(1)[i - 1] == (zeros(k) + trimmed(s))[i - 1]);
                }
            }
        }
        assert(s.skip(1).skip(k) =~= s.skip(k + 1));
        k + 1
    } else {
        assert(s =~= zeros(0) + s);
        assert(s.skip(0) =~= s);
        0
    }
}

/// A checkpoint's name that tells no day tells day 0: one with nothing in it or with
/// something that is no number, and one with a number that no day has.
pub proof fn lemma_no_day_is_day_zero(mid: Seq<char>)
    ensures
        mid.len() == 0 ==> cutoff_of(name_prefix() + mid + name_suffix()) == 0,
        mid.len() > 0 && !crate::text::is_digit(mid[0]) && mid[0] != '+' && mid[0] != '-'
            ==> cutoff_of(name_prefix() + mid + name_suffix()) == 0,
        mid.len() > 0 && crate::text::all_digits(mid) && crate::text::value_of(mid) > i32::MAX
            ==> cutoff_of(name_prefix() + mid + name_suffix()) == 0,
{
    let s = name_prefix() + mid + name_suffix();
    assert(s.subrange(5, s.len() - 5) =~= mid);
    let k = lemma_trimmed_front(mid);
    let rest = trimmed(mid);
    crate::text::lemma_signs_read(rest);
    if mid.len() > 0 && crate::text::all_digits(mid) && crate::text::value_of(mid) > i32::MAX {
        crate::text::lemma_zeros_value(k, rest);
        if rest.len() > 0 {
            assert forall|i: int| 0 <= i < rest.len() implies crate::text::is_digit(
                #[trigger] rest[i],
            ) by {
                assert(rest[i] == mid[k + i]);
                assert(crate::text::is_digit(mid[k + i]));
            }
        }
    } else if mid.len() > 0 && !crate::text::is_digit(mid[0]) {
        assert(rest == mid);
        assert(!crate::text::all_digits(rest));
    }
}

} // verus!
