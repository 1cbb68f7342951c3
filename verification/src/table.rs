//! Process records, sort keys, and the stable sort that orders the process
//! table. Ordering is total even for records whose CPU share is unknown:
//! an unknown share compares as equal to every other value, so re-sorting
//! never fails and never reorders such rows relative to their neighbours.

use vstd::prelude::*;
use vstd::seq_lib::group_to_multiset_ensures;
use vstd::seq_lib::lemma_multiset_commutative;
use vstd::multiset::group_multiset_axioms;
use vstd::utf8::encode_utf8;

verus! {

/// One process as reported by the host at a single instant. The identifier
/// is unique within one snapshot only; it may be reused across snapshots.
#[derive(Debug, Clone)]
pub struct ProcessInfo {
    pub pid: u32,
    pub name: String,
    /// CPU share in hundredths of a percent (may exceed 100% on multi-core
    /// hosts); `None` when the host reported a value that compares with no
    /// other, which this table treats as equal to everything.
    pub cpu_usage: Option<u64>,
    /// Resident memory in bytes.
    pub memory: u64,
    pub status: String,
    /// Seconds since the epoch at which the process started.
    pub start_time: u64,
}

/// The active sort key of the process table.
#[derive(Debug, Clone, Copy, PartialEq, Eq, Structural)]
pub enum SortBy {
    Pid,
    Name,
    Cpu,
    Memory,
}

/// Lexicographic order on byte strings; the order in which names compare.
pub open spec fn lex_le(x: Seq<u8>, y: Seq<u8>) -> bool
    decreases x.len(),
{
    if x.len() == 0 {
        true
    } else if y.len() == 0 {
        false
    } else if x[0] < y[0] {
        true
    } else if x[0] > y[0] {
        false
    } else {
        lex_le(x.drop_first(), y.drop_first())
    }
}

/// The UTF-8 bytes of a record's name, which decide the name order.
pub open spec fn name_bytes(p: ProcessInfo) -> Seq<u8> {
    encode_utf8(p.name@)
}

/// CPU shares compare numerically; an unknown share compares as equal to
/// every value, in both directions.
pub open spec fn cpu_le(a: Option<u64>, b: Option<u64>) -> bool {
    match (a, b) {
        (Some(x), Some(y)) => x <= y,
        _ => true,
    }
}

/// `a` sorts no later than `b` under key `k`, ascending.
pub open spec fn key_le(k: SortBy, a: ProcessInfo, b: ProcessInfo) -> bool {
    match k {
        SortBy::Pid => a.pid <= b.pid,
        SortBy::Name => lex_le(name_bytes(a), name_bytes(b)),
        SortBy::Cpu => cpu_le(a.cpu_usage, b.cpu_usage),
        SortBy::Memory => a.memory <= b.memory,
    }
}

/// The active order: descending is the exact reverse of ascending.
pub open spec fn ord_le(k: SortBy, ascending: bool, a: ProcessInfo, b: ProcessInfo) -> bool {
    if ascending {
        key_le(k, a, b)
    } else {
        key_le(k, b, a)
    }
}

/// Two records tie under key `k`.
pub open spec fn key_equiv(k: SortBy, a: ProcessInfo, b: ProcessInfo) -> bool {
    key_le(k, a, b) && key_le(k, b, a)
}

/// Every neighbouring pair of `s` is in the active order.
pub open spec fn ordered(k: SortBy, ascending: bool, s: Seq<ProcessInfo>) -> bool {
    forall|i: int| 0 <= i && i + 1 < s.len() ==> #[trigger] ord_le(k, ascending, s[i], s[i + 1])
}

/// What `lex_le` yields once the two strings are known to agree up to `i`:
/// the first differing byte decides, and a string that runs out first sorts
/// no later than the other.
proof fn lemma_lex_le_at(x: Seq<u8>, y: Seq<u8>, i: int)
    requires
        0 <= i <= x.len(),
        i <= y.len(),
        forall|m: int| 0 <= m < i ==> x[m] == y[m],
    ensures
        (i < x.len() && i < y.len() && x[i] != y[i]) ==> lex_le(x, y) == (x[i] < y[i]),
        (i == x.len() || i == y.len()) ==> lex_le(x, y) == (x.len() <= y.len()),
    decreases i,
{
    if i > 0 {
        assert(x[0] == y[0]);
        lemma_lex_le_at(x.drop_first(), y.drop_first(), i - 1);
    }
}

/// Any two byte strings compare in at least one direction.
pub proof fn lemma_lex_le_total(x: Seq<u8>, y: Seq<u8>)
    ensures
        lex_le(x, y) || lex_le(y, x),
    decreases x.len(),
{
    if x.len() > 0 && y.len() > 0 && x[0] == y[0] {
        lemma_lex_le_total(x.drop_first(), y.drop_first());
    }
}

/// The byte-string order is transitive.
pub proof fn lemma_lex_le_trans(x: Seq<u8>, y: Seq<u8>, z: Seq<u8>)
    requires
        lex_le(x, y),
        lex_le(y, z),
    ensures
        lex_le(x, z),
    decreases x.len(),
{
    if x.len() > 0 && y.len() > 0 && z.len() > 0 {
        if x[0] == y[0] && y[0] == z[0] {
            lemma_lex_le_trans(x.drop_first(), y.drop_first(), z.drop_first());
        }
    }
}

/// Any two records compare in at least one direction under every key.
pub proof fn lemma_key_le_total(k: SortBy, a: ProcessInfo, b: ProcessInfo)
    ensures
        key_le(k, a, b) || key_le(k, b, a),
{
    if k == SortBy::Name {
        lemma_lex_le_total(name_bytes(a), name_bytes(b));
    }
}

/// `bytes_le` decides `lex_le` on byte slices.
fn bytes_le(x: &[u8], y: &[u8]) -> (r: bool)
    ensures
        r == lex_le(x@, y@),
{
    let xl = x.len();
    let yl = y.len();
    let n = if xl < yl {
        xl
    } else {
        yl
    };
    let mut i: usize = 0;
    while i < n
        invariant
            0 <= i <= n,
            n <= x@.len(),
            n <= y@.len(),
            n == x@.len() || n == y@.len(),
            forall|m: int| 0 <= m < i ==> x@[m] == y@[m],
        decreases n - i,
    {
        if x[i] != y[i] {
            proof {
                lemma_lex_le_at(x@, y@, i as int);
            }
            return x[i] < y[i];
        }
        i = i + 1;
    }
    proof {
        lemma_lex_le_at(x@, y@, n as int);
    }
    xl <= yl
}

/// Decides `key_le` on two records.
pub fn record_key_le(k: SortBy, a: &ProcessInfo, b: &ProcessInfo) -> (r: bool)
    ensures
        r == key_le(k, *a, *b),
{
    match k {
        SortBy::Pid => a.pid <= b.pid,
        SortBy::Name => bytes_le(a.name.as_str().as_bytes(), b.name.as_str().as_bytes()),
        SortBy::Cpu => match (a.cpu_usage, b.cpu_usage) {
            (Some(x), Some(y)) => x <= y,
            _ => true,
        },
        SortBy::Memory => a.memory <= b.memory,
    }
}

/// Decides the active order on two records.
pub fn record_le(k: SortBy, ascending: bool, a: &ProcessInfo, b: &ProcessInfo) -> (r: bool)
    ensures
        r == ord_le(k, ascending, *a, *b),
{
    if ascending {
        record_key_le(k, a, b)
    } else {
        record_key_le(k, b, a)
    }
}

/// Where a record lands when inserted into an already sorted table: below
/// every record that is strictly later in the order, and above everything
/// else — in particular above every record it ties with, which is what
/// makes the sort stable.
pub open spec fn insert_pos(
    k: SortBy,
    ascending: bool,
    s: Seq<ProcessInfo>,
    x: ProcessInfo,
) -> int
    decreases s.len(),
{
    if s.len() == 0 {
        0
    } else if ord_le(k, ascending, s.last(), x) {
        s.len() as int
    } else {
        insert_pos(k, ascending, s.drop_last(), x)
    }
}

/// The stable sort of a table, record by record: each record is inserted
/// at `insert_pos` into the sorted table of the records before it.
pub open spec fn stable_sorted(k: SortBy, ascending: bool, s: Seq<ProcessInfo>) -> Seq<ProcessInfo>
    decreases s.len(),
{
    if s.len() == 0 {
        s
    } else {
        let sorted = stable_sorted(k, ascending, s.drop_last());
        sorted.insert(insert_pos(k, ascending, sorted, s.last()), s.last())
    }
}

/// The insertion position never leaves the table.
pub proof fn lemma_insert_pos_range(k: SortBy, ascending: bool, s: Seq<ProcessInfo>, x: ProcessInfo)
    ensures
        0 <= insert_pos(k, ascending, s, x) <= s.len(),
    decreases s.len(),
{
    if s.len() > 0 && !ord_le(k, ascending, s.last(), x) {
        lemma_insert_pos_range(k, ascending, s.drop_last(), x);
    }
}

/// What the insertion position splits: the record just before it is no
/// later than the inserted one, and every record from the position on is
/// strictly later.
pub proof fn lemma_insert_pos_splits(
    k: SortBy,
    ascending: bool,
    s: Seq<ProcessInfo>,
    x: ProcessInfo,
)
    ensures
        insert_pos(k, ascending, s, x) > 0 ==> ord_le(
            k,
            ascending,
            s[insert_pos(k, ascending, s, x) - 1],
            x,
        ),
        forall|m: int|
            insert_pos(k, ascending, s, x) <= m < s.len() ==> !ord_le(
                k,
                ascending,
                #[trigger] s[m],
                x,
            ),
    decreases s.len(),
{
    lemma_insert_pos_range(k, ascending, s, x);
    if s.len() > 0 && !ord_le(k, ascending, s.last(), x) {
        lemma_insert_pos_splits(k, ascending, s.drop_last(), x);
        lemma_insert_pos_range(k, ascending, s.drop_last(), x);
        let p = insert_pos(k, ascending, s, x);
        if p > 0 {
            assert(s[p - 1] == s.drop_last()[p - 1]);
        }
        assert forall|m: int| p <= m < s.len() implies !ord_le(k, ascending, #[trigger] s[m], x) by {
            if m < s.len() - 1 {
                assert(s[m] == s.drop_last()[m]);
            }
        }
    }
}

/// The stable sort keeps the table's length.
pub proof fn lemma_stable_sorted_len(k: SortBy, ascending: bool, s: Seq<ProcessInfo>)
    ensures
        stable_sorted(k, ascending, s).len() == s.len(),
    decreases s.len(),
{
    if s.len() > 0 {
        let sorted = stable_sorted(k, ascending, s.drop_last());
        lemma_stable_sorted_len(k, ascending, s.drop_last());
        lemma_insert_pos_range(k, ascending, sorted, s.last());
        sorted.insert_ensures(insert_pos(k, ascending, sorted, s.last()), s.last());
    }
}

/// The stable sort holds exactly the table's records.
pub proof fn lemma_stable_sorted_multiset(k: SortBy, ascending: bool, s: Seq<ProcessInfo>)
    ensures
        stable_sorted(k, ascending, s).to_multiset() == s.to_multiset(),
    decreases s.len(),
{
    broadcast use group_to_multiset_ensures;
    broadcast use group_multiset_axioms;

    if s.len() > 0 {
        let sorted = stable_sorted(k, ascending, s.drop_last());
        let x = s.last();
        let p = insert_pos(k, ascending, sorted, x);
        lemma_stable_sorted_multiset(k, ascending, s.drop_last());
        lemma_insert_pos_range(k, ascending, sorted, x);
        assert(sorted.insert(p, x).to_multiset() == sorted.to_multiset().insert(x));
        assert(s =~= s.drop_last().push(x));
        assert(s.drop_last().push(x).to_multiset() =~= s.drop_last().to_multiset().insert(x));
        assert(stable_sorted(k, ascending, s).to_multiset() =~= s.to_multiset());
    }
}

/// The stable sort leaves every neighbouring pair in the active order.
pub proof fn lemma_stable_sorted_ordered(k: SortBy, ascending: bool, s: Seq<ProcessInfo>)
    ensures
        ordered(k, ascending, stable_sorted(k, ascending, s)),
    decreases s.len(),
{
    if s.len() > 0 {
        let sorted = stable_sorted(k, ascending, s.drop_last());
        let x = s.last();
        let p = insert_pos(k, ascending, sorted, x);
        let res = sorted.insert(p, x);
        lemma_stable_sorted_ordered(k, ascending, s.drop_last());
        lemma_stable_sorted_len(k, ascending, s.drop_last());
        lemma_insert_pos_range(k, ascending, sorted, x);
        lemma_insert_pos_splits(k, ascending, sorted, x);
        sorted.insert_ensures(p, x);
        assert forall|m: int| 0 <= m && m + 1 < res.len() implies #[trigger] ord_le(
            k,
            ascending,
            res[m],
            res[m + 1],
        ) by {
            if m + 1 < p {
                assert(res[m] == sorted[m] && res[m + 1] == sorted[m + 1]);
                assert(ord_le(k, ascending, sorted[m], sorted[m + 1]));
            } else if m + 1 == p {
                assert(res[m] == sorted[p - 1] && res[m + 1] == x);
            } else if m == p {
                let q = m;
                assert(res[q + 1] == sorted[q]);
                assert(res[m] == x);
                assert(!ord_le(k, ascending, sorted[q], x));
                lemma_key_le_total(k, x, sorted[q]);
            } else {
                let q = m - 1;
                assert(res[q + 1] == sorted[q] && res[q + 2] == sorted[q + 1]);
                assert(ord_le(k, ascending, sorted[q], sorted[q + 1]));
            }
        }
    }
}

/// The subsequence of `s` that ties with `r` under key `k`, in order.
pub open spec fn ties(k: SortBy, r: ProcessInfo, s: Seq<ProcessInfo>) -> Seq<ProcessInfo>
    decreases s.len(),
{
    if s.len() == 0 {
        s
    } else {
        let rest = ties(k, r, s.drop_last());
        if key_equiv(k, s.last(), r) {
            rest.push(s.last())
        } else {
            rest
        }
    }
}

/// The tie subsequence of a concatenation is the concatenation of the
/// tie subsequences.
proof fn lemma_ties_distributes(k: SortBy, r: ProcessInfo, a: Seq<ProcessInfo>, b: Seq<ProcessInfo>)
    ensures
        ties(k, r, a + b) == ties(k, r, a) + ties(k, r, b),
    decreases b.len(),
{
    if b.len() == 0 {
        assert(a + b =~= a);
        assert(ties(k, r, a) + ties(k, r, b) =~= ties(k, r, a));
    } else {
        lemma_ties_distributes(k, r, a, b.drop_last());
        assert((a + b).drop_last() =~= a + b.drop_last());
        assert((a + b).last() == b.last());
        if key_equiv(k, b.last(), r) {
            assert((ties(k, r, a) + ties(k, r, b.drop_last())).push(b.last()) =~= ties(k, r, a)
                + ties(k, r, b.drop_last()).push(b.last()));
        }
    }
}

/// A table in which nothing ties with `r` has an empty tie subsequence.
proof fn lemma_ties_none(k: SortBy, r: ProcessInfo, s: Seq<ProcessInfo>)
    requires
        forall|i: int| 0 <= i < s.len() ==> !key_equiv(k, #[trigger] s[i], r),
    ensures
        ties(k, r, s).len() == 0,
    decreases s.len(),
{
    if s.len() > 0 {
        assert(!key_equiv(k, s[s.len() - 1], r));
        assert forall|i: int| 0 <= i < s.drop_last().len() implies !key_equiv(
            k,
            #[trigger] s.drop_last()[i],
            r,
        ) by {
            assert(s.drop_last()[i] == s[i]);
        }
        lemma_ties_none(k, r, s.drop_last());
    }
}

/// Tying is transitive on records whose key is defined.
pub proof fn lemma_key_equiv_trans(k: SortBy, a: ProcessInfo, b: ProcessInfo, c: ProcessInfo)
    requires
        key_equiv(k, a, b),
        key_equiv(k, b, c),
        key_defined(k, a),
        key_defined(k, b),
        key_defined(k, c),
    ensures
        key_equiv(k, a, c),
{
    lemma_key_le_trans(k, a, b, c);
    lemma_key_le_trans(k, c, b, a);
}

/// Key definedness is carried by the contents alone.
proof fn lemma_all_keys_defined_multiset(k: SortBy, s: Seq<ProcessInfo>, t: Seq<ProcessInfo>)
    requires
        all_keys_defined(k, s),
        s.to_multiset() == t.to_multiset(),
    ensures
        all_keys_defined(k, t),
{
    broadcast use group_to_multiset_ensures;
    broadcast use group_multiset_axioms;

    assert forall|i: int| 0 <= i < t.len() implies #[trigger] key_defined(k, t[i]) by {
        assert(t.contains(t[i]));
        assert(t.to_multiset().count(t[i]) > 0);
        assert(s.to_multiset().count(t[i]) > 0);
        assert(s.contains(t[i]));
        let m = choose|m: int| 0 <= m < s.len() && s[m] == t[i];
        assert(key_defined(k, s[m]));
    }
}

/// Stability as a law: among the records that tie with `r` under the key,
/// the stable sort keeps exactly the input's order. Stated for tables
/// whose keys are all defined, where tying is transitive; a record with
/// an unknown CPU share ties with everything, so no single tie class
/// contains exactly its peers.
pub proof fn lemma_stable_sorted_stability(
    k: SortBy,
    ascending: bool,
    s: Seq<ProcessInfo>,
    r: ProcessInfo,
)
    requires
        all_keys_defined(k, s),
        key_defined(k, r),
    ensures
        ties(k, r, stable_sorted(k, ascending, s)) == ties(k, r, s),
    decreases s.len(),
{
    if s.len() > 0 {
        let prev = s.drop_last();
        let x = s.last();
        let sorted = stable_sorted(k, ascending, prev);
        let p = insert_pos(k, ascending, sorted, x);
        assert(all_keys_defined(k, prev)) by {
            assert forall|i: int| 0 <= i < prev.len() implies #[trigger] key_defined(
                k,
                prev[i],
            ) by {
                assert(key_defined(k, s[i]));
            }
        }
        lemma_stable_sorted_stability(k, ascending, prev, r);
        lemma_stable_sorted_multiset(k, ascending, prev);
        lemma_all_keys_defined_multiset(k, prev, sorted);
        lemma_stable_sorted_len(k, ascending, prev);
        lemma_insert_pos_range(k, ascending, sorted, x);
        lemma_insert_pos_splits(k, ascending, sorted, x);
        let res = sorted.insert(p, x);
        let lo = sorted.subrange(0, p);
        let hi = sorted.subrange(p, sorted.len() as int);
        assert(res == lo.push(x) + hi);
        lemma_ties_distributes(k, r, lo.push(x), hi);
        assert(lo.push(x).drop_last() =~= lo);
        assert(lo + hi =~= sorted);
        lemma_ties_distributes(k, r, lo, hi);
        if key_equiv(k, x, r) {
            assert(key_defined(k, x));
            assert forall|m: int| 0 <= m < hi.len() implies !key_equiv(k, #[trigger] hi[m], r) by {
                let q = p + m;
                assert(hi[m] == sorted[q]);
                assert(!ord_le(k, ascending, sorted[q], x));
                if key_equiv(k, hi[m], r) {
                    lemma_key_equiv_trans(k, hi[m], r, x);
                }
            }
            lemma_ties_none(k, r, hi);
            assert(ties(k, r, hi) =~= Seq::<ProcessInfo>::empty());
            assert(ties(k, r, sorted) =~= ties(k, r, lo));
            assert(ties(k, r, res) =~= ties(k, r, lo).push(x));
            assert(ties(k, r, s) =~= ties(k, r, prev).push(x));
            assert(ties(k, r, res) =~= ties(k, r, s));
        } else {
            assert(ties(k, r, res) =~= ties(k, r, lo) + ties(k, r, hi));
            assert(ties(k, r, res) =~= ties(k, r, sorted));
            assert(ties(k, r, s) =~= ties(k, r, prev));
            assert(ties(k, r, res) =~= ties(k, r, s));
        }
    }
}

/// Stable insertion sort of the process table under the active key and
/// direction: the result is exactly `stable_sorted` of the input — the
/// same records, every neighbouring pair in order, and a record moved
/// only past records strictly later in the order, so tied records keep
/// their relative order.
#[verifier::loop_isolation(false)]
#[verifier::rlimit(60)]
pub fn sort_records(records: &mut Vec<ProcessInfo>, k: SortBy, ascending: bool)
    ensures
        final(records)@.len() == old(records)@.len(),
        final(records)@.to_multiset() == old(records)@.to_multiset(),
        ordered(k, ascending, final(records)@),
        final(records)@ == stable_sorted(k, ascending, old(records)@),
{
    let ghost orig = records@;
    proof {
        lemma_stable_sorted_multiset(k, ascending, orig);
        lemma_stable_sorted_ordered(k, ascending, orig);
        lemma_stable_sorted_len(k, ascending, orig);
    }
    if records.len() < 2 {
        proof {
            if orig.len() == 1 {
                let s0 = orig.drop_last();
                assert(s0.len() == 0);
                assert(stable_sorted(k, ascending, s0) == s0);
                assert(insert_pos(k, ascending, s0, orig.last()) == 0);
                assert(s0.insert(0, orig.last()) =~= orig);
            }
        }
        return ;
    }
    let mut i: usize = 1;
    proof {
        let first_prefix = orig.subrange(0, 1);
        let empty_prefix = first_prefix.drop_last();
        assert(empty_prefix.len() == 0);
        assert(stable_sorted(k, ascending, empty_prefix) == empty_prefix);
        assert(insert_pos(k, ascending, empty_prefix, first_prefix.last()) == 0);
        assert(empty_prefix.insert(0, first_prefix.last()) =~= first_prefix);
        assert(orig =~= stable_sorted(k, ascending, first_prefix) + orig.subrange(1, orig.len() as int));
    }
    while i < records.len()
        invariant
            1 <= i <= orig.len(),
            records@.len() == orig.len(),
            records@ == stable_sorted(k, ascending, orig.subrange(0, i as int)) + orig.subrange(
                i as int,
                orig.len() as int,
            ),
        decreases orig.len() - i,
    {
        let ghost before = records@;
        let ghost sp = stable_sorted(k, ascending, orig.subrange(0, i as int));
        proof {
            lemma_stable_sorted_len(k, ascending, orig.subrange(0, i as int));
            assert(before[i as int] == orig.subrange(i as int, orig.len() as int)[0]);
        }
        let x = records.remove(i);
        let ghost v1 = records@;
        proof {
            assert(x == orig[i as int]);
            assert(v1 =~= sp + orig.subrange(i + 1, orig.len() as int));
            assert(sp.subrange(0, i as int) =~= sp);
        }
        let mut j: usize = i;
        while j > 0 && !record_le(k, ascending, &records[j - 1], &x)
            invariant
                0 <= j <= i,
                insert_pos(k, ascending, sp, x) == insert_pos(
                    k,
                    ascending,
                    sp.subrange(0, j as int),
                    x,
                ),
            decreases j,
        {
            proof {
                let sub_j = sp.subrange(0, j as int);
                assert(v1[j - 1] == sp[j - 1]);
                assert(sub_j.last() == sp[j - 1]);
                assert(insert_pos(k, ascending, sub_j, x) == insert_pos(
                    k,
                    ascending,
                    sub_j.drop_last(),
                    x,
                ));
                assert(sub_j.drop_last() =~= sp.subrange(0, j - 1));
            }
            j = j - 1;
        }
        proof {
            if j > 0 {
                let sub_j = sp.subrange(0, j as int);
                assert(v1[j - 1] == sp[j - 1]);
                assert(sub_j.last() == sp[j - 1]);
                assert(insert_pos(k, ascending, sub_j, x) == j as int);
            } else {
                assert(sp.subrange(0, 0).len() == 0);
            }
            assert(insert_pos(k, ascending, sp, x) == j as int);
        }
        records.insert(j, x);
        proof {
            let pos = j as int;
            assert(records@ == v1.insert(pos, x));
            assert(v1.insert(pos, x) =~= sp.insert(pos, x) + orig.subrange(
                i + 1,
                orig.len() as int,
            ));
            let pnext = orig.subrange(0, i + 1);
            assert(pnext.drop_last() =~= orig.subrange(0, i as int));
            assert(pnext.last() == orig[i as int]);
            assert(stable_sorted(k, ascending, pnext) == sp.insert(pos, x));
            lemma_stable_sorted_len(k, ascending, pnext);
            sp.insert_ensures(pos, x);
        }
        i = i + 1;
    }
    proof {
        assert(orig.subrange(0, orig.len() as int) =~= orig);
        assert(orig.subrange(orig.len() as int, orig.len() as int).len() == 0);
        assert(records@ =~= stable_sorted(k, ascending, orig));
    }
}

/// Under the CPU key the record's share is known; under every other key
/// nothing is asked. Records with an unknown share tie with everything, so
/// they can appear in a table with pairwise distinct keys only alone.
pub open spec fn key_defined(k: SortBy, p: ProcessInfo) -> bool {
    k == SortBy::Cpu ==> p.cpu_usage is Some
}

pub open spec fn all_keys_defined(k: SortBy, s: Seq<ProcessInfo>) -> bool {
    forall|i: int| 0 <= i < s.len() ==> #[trigger] key_defined(k, s[i])
}

/// No two records of `s` tie under key `k`.
pub open spec fn distinct_keys(k: SortBy, s: Seq<ProcessInfo>) -> bool {
    forall|i: int, j: int| 0 <= i < j < s.len() ==> !#[trigger] key_equiv(k, s[i], s[j])
}

/// The key order is transitive on records whose key is defined.
pub proof fn lemma_key_le_trans(k: SortBy, a: ProcessInfo, b: ProcessInfo, c: ProcessInfo)
    requires
        key_le(k, a, b),
        key_le(k, b, c),
        key_defined(k, a),
        key_defined(k, b),
        key_defined(k, c),
    ensures
        key_le(k, a, c),
{
    if k == SortBy::Name {
        lemma_lex_le_trans(name_bytes(a), name_bytes(b), name_bytes(c));
    }
}

/// In a table of at least two rows with pairwise distinct keys, every
/// record's key is defined.
pub proof fn lemma_distinct_keys_defined(k: SortBy, s: Seq<ProcessInfo>)
    requires
        distinct_keys(k, s),
        s.len() >= 2,
    ensures
        all_keys_defined(k, s),
{
    assert forall|i: int| 0 <= i < s.len() implies #[trigger] key_defined(k, s[i]) by {
        if k == SortBy::Cpu && !(s[i].cpu_usage is Some) {
            let j: int = if i == 0 {
                1
            } else {
                0
            };
            if i < j {
                assert(key_equiv(k, s[i], s[j]));
            } else {
                assert(key_equiv(k, s[j], s[i]));
            }
        }
    }
}

/// Neighbourwise order extends to any two positions once every key on the
/// way is defined, since the order is then transitive.
pub proof fn lemma_ordered_pairwise(
    k: SortBy,
    ascending: bool,
    s: Seq<ProcessInfo>,
    i: int,
    j: int,
)
    requires
        ordered(k, ascending, s),
        all_keys_defined(k, s),
        0 <= i <= j < s.len(),
    ensures
        ord_le(k, ascending, s[i], s[j]),
    decreases j - i,
{
    if i == j {
        lemma_key_le_total(k, s[i], s[i]);
    } else {
        lemma_ordered_pairwise(k, ascending, s, i, j - 1);
        let p = j - 1;
        assert(ord_le(k, ascending, s[p], s[p + 1]));
        if ascending {
            lemma_key_le_trans(k, s[i], s[j - 1], s[j]);
        } else {
            lemma_key_le_trans(k, s[j], s[j - 1], s[i]);
        }
    }
}

/// Distinctness of keys is carried by the contents alone: any sequence with
/// the same records as `s` also has pairwise distinct keys.
pub proof fn lemma_distinct_keys_multiset(k: SortBy, s: Seq<ProcessInfo>, t: Seq<ProcessInfo>)
    requires
        distinct_keys(k, s),
        s.to_multiset() == t.to_multiset(),
    ensures
        distinct_keys(k, t),
{
    broadcast use group_to_multiset_ensures;
    broadcast use group_multiset_axioms;

    assert forall|i: int, j: int| 0 <= i < j < t.len() implies !#[trigger] key_equiv(
        k,
        t[i],
        t[j],
    ) by {
        if key_equiv(k, t[i], t[j]) {
            if t[i] == t[j] {
                let e = t[i];
                let t0 = t.subrange(0, j);
                let t1 = t.subrange(j, t.len() as int);
                assert(t =~= t0 + t1);
                lemma_multiset_commutative(t0, t1);
                assert(t0[i] == e && t1[0] == e);
                assert(t0.contains(e) && t1.contains(e));
                assert(s.to_multiset().count(e) >= 2);
                assert(s.contains(e));
                let i1 = choose|m: int| 0 <= m < s.len() && s[m] == e;
                assert(s.remove(i1).to_multiset() == s.to_multiset().remove(e));
                assert(s.remove(i1).to_multiset().count(e) >= 1);
                assert(s.remove(i1).contains(e));
                let m2 = choose|m: int| 0 <= m < s.remove(i1).len() && s.remove(i1)[m] == e;
                s.remove_ensures(i1);
                let i2: int = if m2 < i1 {
                    m2
                } else {
                    m2 + 1
                };
                assert(s[i2] == e && i2 != i1);
                lemma_key_le_total(k, e, e);
                if i1 < i2 {
                    assert(!key_equiv(k, s[i1], s[i2]));
                } else {
                    assert(!key_equiv(k, s[i2], s[i1]));
                }
                assert(false);
            } else {
                assert(t.contains(t[i]) && t.contains(t[j]));
                assert(t.to_multiset().count(t[i]) > 0 && t.to_multiset().count(t[j]) > 0);
                assert(s.to_multiset().count(t[i]) > 0 && s.to_multiset().count(t[j]) > 0);
                assert(s.contains(t[i]) && s.contains(t[j]));
                let i1 = choose|m: int| 0 <= m < s.len() && s[m] == t[i];
                let i2 = choose|m: int| 0 <= m < s.len() && s[m] == t[j];
                assert(i1 != i2);
                if i1 < i2 {
                    assert(!key_equiv(k, s[i1], s[i2]));
                } else {
                    assert(!key_equiv(k, s[i2], s[i1]));
                }
                assert(false);
            }
        }
    }
}

/// Two orderings of the same records, sorted the same way, are equal when
/// no two records tie.
proof fn lemma_sorted_unique_distinct(
    k: SortBy,
    ascending: bool,
    x: Seq<ProcessInfo>,
    y: Seq<ProcessInfo>,
)
    requires
        ordered(k, ascending, x),
        ordered(k, ascending, y),
        all_keys_defined(k, x),
        all_keys_defined(k, y),
        distinct_keys(k, x),
        distinct_keys(k, y),
        x.to_multiset() == y.to_multiset(),
    ensures
        x == y,
    decreases x.len(),
{
    broadcast use group_to_multiset_ensures;
    broadcast use group_multiset_axioms;

    vstd::seq_lib::to_multiset_len(x);
    vstd::seq_lib::to_multiset_len(y);
    assert(x.len() == y.len());
    if x.len() == 0 {
        assert(x =~= y);
    } else {
        assert(y.contains(y[0]) && x.contains(x[0]));
        assert(y.to_multiset().count(y[0]) > 0 && x.to_multiset().count(x[0]) > 0);
        assert(x.to_multiset().count(y[0]) > 0 && y.to_multiset().count(x[0]) > 0);
        assert(x.contains(y[0]) && y.contains(x[0]));
        let i = choose|m: int| 0 <= m < x.len() && x[m] == y[0];
        let j = choose|m: int| 0 <= m < y.len() && y[m] == x[0];
        lemma_ordered_pairwise(k, ascending, x, 0, i);
        lemma_ordered_pairwise(k, ascending, y, 0, j);
        assert(key_equiv(k, x[0], x[i]));
        if i != 0 {
            assert(!key_equiv(k, x[0], x[i]));
        }
        assert(x[0] == y[0]);
        let xs = x.drop_first();
        let ys = y.drop_first();
        assert(xs =~= x.remove(0));
        assert(ys =~= y.remove(0));
        assert(xs.to_multiset() == ys.to_multiset());
        assert(ordered(k, ascending, xs)) by {
            assert forall|m: int| 0 <= m && m + 1 < xs.len() implies #[trigger] ord_le(
                k,
                ascending,
                xs[m],
                xs[m + 1],
            ) by {
                let p = m + 1;
                assert(ord_le(k, ascending, x[p], x[p + 1]));
            }
        }
        assert(ordered(k, ascending, ys)) by {
            assert forall|m: int| 0 <= m && m + 1 < ys.len() implies #[trigger] ord_le(
                k,
                ascending,
                ys[m],
                ys[m + 1],
            ) by {
                let p = m + 1;
                assert(ord_le(k, ascending, y[p], y[p + 1]));
            }
        }
        assert(all_keys_defined(k, xs)) by {
            assert forall|m: int| 0 <= m < xs.len() implies #[trigger] key_defined(k, xs[m]) by {
                assert(key_defined(k, x[m + 1]));
            }
        }
        assert(all_keys_defined(k, ys)) by {
            assert forall|m: int| 0 <= m < ys.len() implies #[trigger] key_defined(k, ys[m]) by {
                assert(key_defined(k, y[m + 1]));
            }
        }
        assert(distinct_keys(k, xs)) by {
            assert forall|a: int, b: int| 0 <= a < b < xs.len() implies !#[trigger] key_equiv(
                k,
                xs[a],
                xs[b],
            ) by {
                assert(!key_equiv(k, x[a + 1], x[b + 1]));
            }
        }
        assert(distinct_keys(k, ys)) by {
            assert forall|a: int, b: int| 0 <= a < b < ys.len() implies !#[trigger] key_equiv(
                k,
                ys[a],
                ys[b],
            ) by {
                assert(!key_equiv(k, y[a + 1], y[b + 1]));
            }
        }
        lemma_sorted_unique_distinct(k, ascending, xs, ys);
        assert forall|m: int| 0 <= m < x.len() implies x[m] == y[m] by {
            if m > 0 {
                assert(x[m] == xs[m - 1]);
                assert(y[m] == ys[m - 1]);
            }
        }
        assert(x =~= y);
    }
}

/// Reversing a sorted table sorts it the opposite way.
pub proof fn lemma_reverse_ordered(k: SortBy, ascending: bool, s: Seq<ProcessInfo>)
    requires
        ordered(k, ascending, s),
    ensures
        ordered(k, !ascending, s.reverse()),
{
    let r = s.reverse();
    let d = !ascending;
    assert forall|i: int| 0 <= i && i + 1 < r.len() implies #[trigger] ord_le(
        k,
        d,
        r[i],
        r[i + 1],
    ) by {
        let n = s.len() as int;
        let m = n - 2 - i;
        assert(r[i] == s[m + 1] && r[i + 1] == s[m]);
        assert(ord_le(k, ascending, s[m], s[m + 1]));
    }
}

/// Sorting the same records by one key in both directions yields exactly
/// reversed tables, provided no two records tie under that key: `s1` sorted
/// ascending and `s2` sorted descending are mirror images.
pub proof fn lemma_opposite_directions_reverse(
    k: SortBy,
    s1: Seq<ProcessInfo>,
    s2: Seq<ProcessInfo>,
)
    requires
        ordered(k, true, s1),
        ordered(k, false, s2),
        s1.to_multiset() == s2.to_multiset(),
        distinct_keys(k, s1),
    ensures
        s2 == s1.reverse(),
{
    broadcast use group_to_multiset_ensures;
    broadcast use group_multiset_axioms;

    let r = s1.reverse();
    s1.lemma_reverse_to_multiset();
    vstd::seq_lib::to_multiset_len(s1);
    vstd::seq_lib::to_multiset_len(s2);
    assert(s1.len() == s2.len());
    if s1.len() == 0 {
        assert(s2 =~= r);
    } else if s1.len() == 1 {
        assert(s2.contains(s2[0]));
        assert(s2.to_multiset().count(s2[0]) > 0);
        assert(s1.to_multiset().count(s2[0]) > 0);
        assert(s1.contains(s2[0]));
        assert(s1[0] == s2[0]);
        assert(s2 =~= r);
    } else {
        lemma_distinct_keys_defined(k, s1);
        lemma_distinct_keys_multiset(k, s1, r);
        lemma_distinct_keys_multiset(k, s1, s2);
        lemma_distinct_keys_defined(k, r);
        lemma_distinct_keys_defined(k, s2);
        lemma_reverse_ordered(k, true, s1);
        lemma_sorted_unique_distinct(k, false, r, s2);
    }
}

} // verus!
