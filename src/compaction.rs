//! Canonical compaction: a list of (key, delta) pairs becomes one entry per
//! key with a non-zero total, in ascending key order.
use vstd::prelude::*;

verus! {

/// A key that compaction can order. Each key has an integer position, and
/// distinct keys have distinct positions.
pub trait CompactKey: Copy + Sized {
    spec fn pos(&self) -> int;

    proof fn lemma_pos_injective(a: Self, b: Self)
        ensures
            a.pos() == b.pos() ==> a == b,
    ;

    fn key_lt(&self, other: &Self) -> (r: bool)
        ensures
            r == (self.pos() < other.pos()),
    ;

    fn key_eq(&self, other: &Self) -> (r: bool)
        ensures
            r == (*self == *other),
    ;
}

impl CompactKey for usize {
    open spec fn pos(&self) -> int {
        *self as int
    }

    proof fn lemma_pos_injective(a: Self, b: Self) {
    }

    fn key_lt(&self, other: &Self) -> (r: bool) {
        *self < *other
    }

    fn key_eq(&self, other: &Self) -> (r: bool) {
        *self == *other
    }
}

/// Width of the second component when a pair of node ids is laid out on
/// one integer line.
pub open spec fn pair_base() -> int {
    0x1_0000_0000_0000_0000
}

/// The key of an edge record: its source and destination node.
#[derive(Clone, Copy, Debug, PartialEq, Eq, Structural)]
pub struct EdgeKey {
    pub src: usize,
    pub dst: usize,
}

impl CompactKey for EdgeKey {
    /// Lexicographic order: source first, then destination.
    open spec fn pos(&self) -> int {
        self.src as int * pair_base() + self.dst as int
    }

    proof fn lemma_pos_injective(a: Self, b: Self) {
        lemma_pair_pos(a.src as int, a.dst as int, b.src as int, b.dst as int);
    }

    fn key_lt(&self, other: &Self) -> (r: bool) {
        proof {
            lemma_pair_pos(self.src as int, self.dst as int, other.src as int, other.dst as int);
        }
        self.src < other.src || (self.src == other.src && self.dst < other.dst)
    }

    fn key_eq(&self, other: &Self) -> (r: bool) {
        self.src == other.src && self.dst == other.dst
    }
}

proof fn lemma_pair_pos(a0: int, a1: int, b0: int, b1: int)
    requires
        0 <= a0,
        0 <= b0,
        0 <= a1 < pair_base(),
        0 <= b1 < pair_base(),
    ensures
        (a0 * pair_base() + a1 < b0 * pair_base() + b1) == (a0 < b0 || (a0 == b0 && a1 < b1)),
        (a0 * pair_base() + a1 == b0 * pair_base() + b1) == (a0 == b0 && a1 == b1),
{
    assert((a0 * pair_base() + a1 < b0 * pair_base() + b1) == (a0 < b0 || (a0 == b0 && a1 < b1)))
        by (nonlinear_arith)
        requires
            0 <= a1 < pair_base(),
            0 <= b1 < pair_base(),
    ;
    assert((a0 * pair_base() + a1 == b0 * pair_base() + b1) == (a0 == b0 && a1 == b1))
        by (nonlinear_arith)
        requires
            0 <= a1 < pair_base(),
            0 <= b1 < pair_base(),
    ;
}

/// Sum of the values that `s` holds under key `k`.
pub open spec fn sum_at<K>(s: Seq<(K, int)>, k: K) -> int
    decreases s.len(),
{
    if s.len() == 0 {
        0
    } else {
        sum_at(s.drop_last(), k) + (if s.last().0 == k {
            s.last().1
        } else {
            0
        })
    }
}

/// A delta list with its values read as mathematical integers.
pub open spec fn ints<K>(s: Seq<(K, i64)>) -> Seq<(K, int)> {
    s.map_values(|e: (K, i64)| (e.0, e.1 as int))
}

/// The wide accumulator of compaction with its values read as integers.
pub open spec fn wide_ints<K>(s: Seq<(K, i128)>) -> Seq<(K, int)> {
    s.map_values(|e: (K, i128)| (e.0, e.1 as int))
}

/// Total delta that the list `s` carries for key `k`.
pub open spec fn key_sum<K>(s: Seq<(K, i64)>, k: K) -> int {
    sum_at(ints(s), k)
}

/// Positions of the keys strictly ascending, so no key repeats.
pub open spec fn strictly_sorted<K: CompactKey>(s: Seq<(K, int)>) -> bool {
    forall|i: int, j: int| 0 <= i < j < s.len() ==> s[i].0.pos() < s[j].0.pos()
}

/// Canonical form: keys strictly ascending, no zero value.
pub open spec fn is_compacted<K: CompactKey>(s: Seq<(K, i64)>) -> bool {
    &&& strictly_sorted(ints(s))
    &&& forall|i: int| 0 <= i < s.len() ==> s[i].1 != 0
}

/// Every key's total fits in an `i64`.
pub open spec fn sums_fit<K>(s: Seq<(K, i64)>) -> bool {
    forall|k: K| i64::MIN <= #[trigger] key_sum(s, k) <= i64::MAX
}

/// Sums over a concatenation add up.
pub proof fn lemma_sum_concat<K>(a: Seq<(K, int)>, b: Seq<(K, int)>, k: K)
    ensures
        sum_at(a + b, k) == sum_at(a, k) + sum_at(b, k),
    decreases b.len(),
{
    if b.len() == 0 {
        assert(a + b =~= a);
    } else {
        assert((a + b).drop_last() =~= a + b.drop_last());
        lemma_sum_concat(a, b.drop_last(), k);
    }
}

/// The sum over a single entry.
pub proof fn lemma_sum_single<K>(x: (K, int), k: K)
    ensures
        sum_at(seq![x], k) == (if x.0 == k {
            x.1
        } else {
            0
        }),
{
    assert(seq![x].drop_last() =~= Seq::<(K, int)>::empty());
    assert(sum_at(Seq::<(K, int)>::empty(), k) == 0);
    assert(seq![x].last() == x);
}

/// Inserting `x` at `j` adds its value to the sum at its key.
pub proof fn lemma_sum_insert<K>(s: Seq<(K, int)>, j: int, x: (K, int), k: K)
    requires
        0 <= j <= s.len(),
    ensures
        sum_at(s.insert(j, x), k) == sum_at(s, k) + (if x.0 == k {
            x.1
        } else {
            0
        }),
{
    assert(s.insert(j, x) =~= s.take(j) + seq![x] + s.skip(j));
    assert(s =~= s.take(j) + s.skip(j));
    lemma_sum_concat(s.take(j) + seq![x], s.skip(j), k);
    lemma_sum_concat(s.take(j), seq![x], k);
    lemma_sum_concat(s.take(j), s.skip(j), k);
    lemma_sum_single(x, k);
}

/// Replacing the entry at `j` by `x` swaps its contribution.
pub proof fn lemma_sum_update<K>(s: Seq<(K, int)>, j: int, x: (K, int), k: K)
    requires
        0 <= j < s.len(),
    ensures
        sum_at(s.update(j, x), k) == sum_at(s, k) - (if s[j].0 == k {
            s[j].1
        } else {
            0
        }) + (if x.0 == k {
            x.1
        } else {
            0
        }),
{
    assert(s.update(j, x) =~= s.take(j) + seq![x] + s.skip(j + 1));
    assert(s =~= s.take(j) + seq![s[j]] + s.skip(j + 1));
    lemma_sum_concat(s.take(j) + seq![x], s.skip(j + 1), k);
    lemma_sum_concat(s.take(j), seq![x], k);
    lemma_sum_concat(s.take(j) + seq![s[j]], s.skip(j + 1), k);
    lemma_sum_concat(s.take(j), seq![s[j]], k);
    lemma_sum_single(x, k);
    lemma_sum_single(s[j], k);
}

/// A key that no entry carries sums to zero.
pub proof fn lemma_sum_absent<K>(s: Seq<(K, int)>, k: K)
    requires
        forall|i: int| 0 <= i < s.len() ==> s[i].0 != k,
    ensures
        sum_at(s, k) == 0,
    decreases s.len(),
{
    if s.len() > 0 {
        lemma_sum_absent(s.drop_last(), k);
    }
}

/// A key that exactly one entry carries sums to that entry's value.
pub proof fn lemma_sum_unique<K>(s: Seq<(K, int)>, j: int)
    requires
        0 <= j < s.len(),
        forall|i: int| 0 <= i < s.len() && i != j ==> s[i].0 != s[j].0,
    ensures
        sum_at(s, s[j].0) == s[j].1,
{
    let k = s[j].0;
    assert(s =~= s.take(j) + seq![s[j]] + s.skip(j + 1));
    lemma_sum_concat(s.take(j) + seq![s[j]], s.skip(j + 1), k);
    lemma_sum_concat(s.take(j), seq![s[j]], k);
    lemma_sum_single(s[j], k);
    lemma_sum_absent(s.take(j), k);
    lemma_sum_absent(s.skip(j + 1), k);
}

/// In a list with strictly ascending keys, the sum at a key is the value of
/// the entry that carries it, or zero where none does.
pub proof fn lemma_sorted_sum<K: CompactKey>(s: Seq<(K, int)>, k: K)
    requires
        strictly_sorted(s),
    ensures
        forall|j: int| 0 <= j < s.len() && s[j].0 == k ==> sum_at(s, k) == s[j].1,
        (forall|j: int| 0 <= j < s.len() ==> s[j].0 != k) ==> sum_at(s, k) == 0,
{
    assert forall|j: int| 0 <= j < s.len() && s[j].0 == k implies sum_at(s, k) == s[j].1 by {
        lemma_sum_unique(s, j);
    }
    if forall|j: int| 0 <= j < s.len() ==> s[j].0 != k {
        lemma_sum_absent(s, k);
    }
}

/// `after` is the canonical form of `before`: what `compact` makes of it.
pub open spec fn compacts_to<K: CompactKey>(before: Seq<(K, i64)>, after: Seq<(K, i64)>) -> bool {
    &&& is_compacted(after)
    &&& forall|k: K| #[trigger] key_sum(after, k) == key_sum(before, k)
}

proof fn lemma_sum_skip_first<K>(s: Seq<(K, int)>, k: K)
    requires
        s.len() > 0,
    ensures
        sum_at(s, k) == sum_at(s.skip(1), k) + (if s[0].0 == k {
            s[0].1
        } else {
            0
        }),
{
    assert(s =~= seq![s[0]] + s.skip(1));
    lemma_sum_concat(seq![s[0]], s.skip(1), k);
    lemma_sum_single(s[0], k);
}

/// Two lists in canonical form with the same total under every key are the
/// same list.
pub proof fn lemma_canonical_unique<K: CompactKey>(a: Seq<(K, i64)>, b: Seq<(K, i64)>)
    requires
        is_compacted(a),
        is_compacted(b),
        forall|k: K| #[trigger] key_sum(a, k) == key_sum(b, k),
    ensures
        a == b,
    decreases a.len() + b.len(),
{
    let ia = ints(a);
    let ib = ints(b);
    if a.len() == 0 && b.len() == 0 {
        assert(a =~= b);
    } else if a.len() == 0 {
        lemma_sorted_sum(ib, b[0].0);
        lemma_sorted_sum(ia, b[0].0);
        assert(ib[0] == (b[0].0, b[0].1 as int));
        assert(key_sum(b, b[0].0) == b[0].1);
        assert(key_sum(a, b[0].0) == 0);
    } else if b.len() == 0 {
        lemma_sorted_sum(ia, a[0].0);
        lemma_sorted_sum(ib, a[0].0);
        assert(ia[0] == (a[0].0, a[0].1 as int));
        assert(key_sum(a, a[0].0) == a[0].1);
        assert(key_sum(b, a[0].0) == 0);
    } else {
        // The first entry of each list stands in the other one.
        assert(ia[0] == (a[0].0, a[0].1 as int));
        assert(ib[0] == (b[0].0, b[0].1 as int));
        lemma_sorted_sum(ia, a[0].0);
        lemma_sorted_sum(ib, a[0].0);
        assert(key_sum(a, a[0].0) == a[0].1);
        assert(key_sum(b, a[0].0) != 0);
        assert(exists|j: int| 0 <= j < b.len() && ib[j].0 == a[0].0);
        let j = choose|j: int| 0 <= j < b.len() && ib[j].0 == a[0].0;
        lemma_sorted_sum(ia, b[0].0);
        lemma_sorted_sum(ib, b[0].0);
        assert(key_sum(b, b[0].0) == b[0].1);
        assert(key_sum(a, b[0].0) != 0);
        assert(exists|i: int| 0 <= i < a.len() && ia[i].0 == b[0].0);
        let i = choose|i: int| 0 <= i < a.len() && ia[i].0 == b[0].0;
        assert(strictly_sorted(ia));
        assert(strictly_sorted(ib));
        if j > 0 {
            assert(ib[0].0.pos() < ib[j].0.pos());
            if i > 0 {
                assert(ia[0].0.pos() < ia[i].0.pos());
            }
        }
        assert(j == 0);
        assert(a[0] == b[0]);
        let a1 = a.skip(1);
        let b1 = b.skip(1);
        assert(ints(a1) =~= ia.skip(1));
        assert(ints(b1) =~= ib.skip(1));
        assert forall|k: K| #[trigger] key_sum(a1, k) == key_sum(b1, k) by {
            lemma_sum_skip_first(ia, k);
            lemma_sum_skip_first(ib, k);
            assert(key_sum(a, k) == key_sum(b, k));
        }
        lemma_canonical_unique(a1, b1);
        assert(a =~= seq![a[0]] + a1);
        assert(b =~= seq![b[0]] + b1);
    }
}

/// The canonical form of a delta list: the one list in canonical form that
/// carries the same total under every key.
pub open spec fn canonical<K: CompactKey>(s: Seq<(K, i64)>) -> Seq<(K, i64)> {
    choose|c: Seq<(K, i64)>| compacts_to(s, c)
}

/// Whatever compaction returns is the canonical form.
pub proof fn lemma_canonical_is<K: CompactKey>(s: Seq<(K, i64)>, c: Seq<(K, i64)>)
    requires
        compacts_to(s, c),
    ensures
        canonical(s) == c,
{
    let d = canonical(s);
    assert(compacts_to(s, d));
    lemma_canonical_unique(d, c);
}

/// Compaction is idempotent: compacting a compacted list gives it back.
pub proof fn lemma_compact_idempotent<K: CompactKey>(
    s: Seq<(K, i64)>,
    once: Seq<(K, i64)>,
    twice: Seq<(K, i64)>,
)
    requires
        compacts_to(s, once),
        compacts_to(once, twice),
    ensures
        twice == once,
{
    lemma_canonical_unique(twice, once);
}

/// Compaction conserves each key's total: after it, a key whose total was
/// non-zero stands in exactly one entry, which holds that total, and a key
/// whose total was zero stands in none.
pub proof fn lemma_compact_conserves<K: CompactKey>(s: Seq<(K, i64)>, c: Seq<(K, i64)>, k: K)
    requires
        compacts_to(s, c),
    ensures
        key_sum(s, k) == 0 <==> (forall|j: int| 0 <= j < c.len() ==> c[j].0 != k),
        forall|j: int| 0 <= j < c.len() && c[j].0 == k ==> c[j].1 == key_sum(s, k),
        forall|i: int, j: int| 0 <= i < j < c.len() ==> c[i].0 != c[j].0,
{
    let ic = ints(c);
    assert(key_sum(c, k) == key_sum(s, k));
    lemma_sorted_sum(ic, k);
    assert forall|j: int| 0 <= j < c.len() && c[j].0 == k implies c[j].1 == key_sum(s, k) by {
        assert(ic[j] == (c[j].0, c[j].1 as int));
    }
    if key_sum(s, k) == 0 {
        assert forall|j: int| 0 <= j < c.len() implies c[j].0 != k by {
            assert(ic[j] == (c[j].0, c[j].1 as int));
        }
    } else {
        assert(exists|j: int| 0 <= j < c.len() && ic[j].0 == k);
        let j = choose|j: int| 0 <= j < c.len() && ic[j].0 == k;
        assert(c[j].0 == k);
    }
    assert forall|i: int, j: int| 0 <= i < j < c.len() implies c[i].0 != c[j].0 by {
        assert(ic[i].0.pos() < ic[j].0.pos());
    }
}

/// First slot of `acc` whose key is not below `k`.
fn find_slot<K: CompactKey>(acc: &Vec<(K, i128)>, k: &K) -> (j: usize)
    ensures
        j <= acc.len(),
        forall|m: int| 0 <= m < j ==> acc@[m].0.pos() < k.pos(),
        j < acc.len() ==> acc@[j as int].0.pos() >= k.pos(),
{
    let mut j: usize = 0;
    while j < acc.len() && acc[j].0.key_lt(k)
        invariant
            0 <= j <= acc.len(),
            forall|m: int| 0 <= m < j ==> acc@[m].0.pos() < k.pos(),
        decreases acc.len() - j,
    {
        j += 1;
    }
    j
}

/// Totals per key of `list`, ascending by key, in a type wide enough that
/// no total overflows.
fn fold_totals<K: CompactKey>(list: &Vec<(K, i64)>) -> (acc: Vec<(K, i128)>)
    ensures
        strictly_sorted(wide_ints(acc@)),
        forall|kk: K| #[trigger] sum_at(wide_ints(acc@), kk) == key_sum(list@, kk),
{
    let ghost src = list@;
    let n = list.len();
    // Totals per key, kept in ascending key order; wide enough that no
    // partial total can overflow.
    let mut acc: Vec<(K, i128)> = Vec::new();
    let mut i: usize = 0;
    while i < n
        invariant
            n == list.len(),
            list@ == src,
            0 <= i <= n,
            strictly_sorted(wide_ints(acc@)),
            forall|kk: K| #[trigger]
                sum_at(wide_ints(acc@), kk) == key_sum(src.take(i as int), kk),
            forall|m: int|
                0 <= m < acc.len() ==> -(i as int) * 0x8000_0000_0000_0000 <= #[trigger] acc@[m].1
                    <= (i as int) * 0x8000_0000_0000_0000,
        decreases n - i,
    {
        let (k, v) = list[i];
        let j = find_slot(&acc, &k);
        proof {
            assert(ints(src.take(i + 1)).drop_last() =~= ints(src.take(i as int)));
            assert(ints(src.take(i + 1)).last() == (k, v as int));
        }
        let ghost before = acc@;
        if j < acc.len() && acc[j].0.key_eq(&k) {
            let total = acc[j].1 + v as i128;
            acc.set(j, (k, total));
            proof {
                assert(wide_ints(acc@) =~= wide_ints(before).update(j as int, (k, total as int)));
                assert forall|a: int, b: int| 0 <= a < b < acc.len() implies wide_ints(acc@)[a].0.pos()
                    < wide_ints(acc@)[b].0.pos() by {
                    assert(wide_ints(before)[a].0.pos() < wide_ints(before)[b].0.pos());
                }
                assert forall|kk: K| #[trigger]
                    sum_at(wide_ints(acc@), kk) == key_sum(src.take(i + 1), kk) by {
                    lemma_sum_update(wide_ints(before), j as int, (k, total as int), kk);
                }
            }
        } else {
            proof {
                if j < acc.len() {
                    K::lemma_pos_injective(acc@[j as int].0, k);
                }
            }
            acc.insert(j, (k, v as i128));
            proof {
                assert(wide_ints(acc@) =~= wide_ints(before).insert(j as int, (k, v as int)));
                assert forall|a: int, b: int| 0 <= a < b < acc.len() implies wide_ints(acc@)[a].0.pos()
                    < wide_ints(acc@)[b].0.pos() by {
                    if j < before.len() {
                        assert(wide_ints(before)[j as int].0.pos() > k.pos());
                    }
                    if b < j {
                        assert(wide_ints(before)[a].0.pos() < wide_ints(before)[b].0.pos());
                    } else if b == j {
                        assert(before[a].0.pos() < k.pos());
                    } else if a < j {
                        assert(before[a].0.pos() < k.pos());
                        if b - 1 > j {
                            assert(wide_ints(before)[j as int].0.pos() < wide_ints(before)[b
                                - 1].0.pos());
                        }
                    } else if a == j {
                        if b - 1 > j {
                            assert(wide_ints(before)[j as int].0.pos() < wide_ints(before)[b
                                - 1].0.pos());
                        }
                    } else {
                        assert(wide_ints(before)[a - 1].0.pos() < wide_ints(before)[b - 1].0.pos());
                    }
                }
                assert forall|kk: K| #[trigger]
                    sum_at(wide_ints(acc@), kk) == key_sum(src.take(i + 1), kk) by {
                    lemma_sum_insert(wide_ints(before), j as int, (k, v as int), kk);
                }
            }
        }
        i += 1;
    }
    assert(src.take(n as int) =~= src);
    acc
}

/// The non-zero totals of `acc` as a canonical delta list.
fn narrow<K: CompactKey>(acc: &Vec<(K, i128)>, Ghost(src): Ghost<Seq<(K, i64)>>) -> (out: Vec<(K, i64)>)
    requires
        sums_fit(src),
        strictly_sorted(wide_ints(acc@)),
        forall|kk: K| #[trigger] sum_at(wide_ints(acc@), kk) == key_sum(src, kk),
    ensures
        compacts_to(src, out@),
{
    let mut out: Vec<(K, i64)> = Vec::new();
    let mut t: usize = 0;
    while t < acc.len()
        invariant
            0 <= t <= acc.len(),
            sums_fit(src),
            strictly_sorted(wide_ints(acc@)),
            forall|kk: K| #[trigger] sum_at(wide_ints(acc@), kk) == key_sum(src, kk),
            is_compacted(out@),
            forall|kk: K| #[trigger]
                key_sum(out@, kk) == sum_at(wide_ints(acc@.take(t as int)), kk),
            forall|m: int, q: int|
                0 <= m < out.len() && t <= q < acc.len() ==> #[trigger] out@[m].0.pos()
                    < #[trigger] acc@[q].0.pos(),
        decreases acc.len() - t,
    {
        let (k, v) = acc[t];
        proof {
            lemma_sorted_sum(wide_ints(acc@), k);
            assert(wide_ints(acc@)[t as int] == (k, v as int));
            assert(key_sum(src, k) == v);
            assert(wide_ints(acc@.take(t + 1)).drop_last() =~= wide_ints(acc@.take(t as int)));
            assert(wide_ints(acc@.take(t + 1)).last() == (k, v as int));
        }
        let ghost before = out@;
        if v != 0 {
            out.push((k, v as i64));
            proof {
                assert(ints(out@).drop_last() =~= ints(before));
                assert(ints(out@).last() == (k, v as int));
                assert forall|a: int, b: int| 0 <= a < b < out.len() implies ints(out@)[a].0.pos()
                    < ints(out@)[b].0.pos() by {
                    if b == out.len() - 1 {
                        assert(before[a].0.pos() < acc@[t as int].0.pos());
                    } else {
                        assert(ints(before)[a].0.pos() < ints(before)[b].0.pos());
                    }
                }
            }
        }
        proof {
            assert forall|kk: K| #[trigger]
                key_sum(out@, kk) == sum_at(wide_ints(acc@.take(t + 1)), kk) by {
                let w = wide_ints(acc@.take(t + 1));
                assert(sum_at(w, kk) == sum_at(w.drop_last(), kk) + (if w.last().0 == kk {
                    w.last().1
                } else {
                    0
                }));
                assert(key_sum(before, kk) == sum_at(wide_ints(acc@.take(t as int)), kk));
                if v != 0 {
                    assert(ints(out@).drop_last() =~= ints(before));
                } else {
                    assert(out@ == before);
                }
            }
            assert forall|m: int, q: int|
                0 <= m < out.len() && t + 1 <= q < acc.len() implies #[trigger] out@[m].0.pos()
                < #[trigger] acc@[q].0.pos() by {
                if m < before.len() {
                    assert(before[m].0.pos() < acc@[q].0.pos());
                } else {
                    assert(wide_ints(acc@)[t as int].0.pos() < wide_ints(acc@)[q].0.pos());
                }
            }
        }
        t += 1;
    }
    assert(acc@.take(acc.len() as int) =~= acc@);
    out
}

/// Compacts `list` in place: its entries come out ordered by key, the
/// entries of one key folded into a single entry that carries their total,
/// and keys whose total is zero dropped.
pub fn compact<K: CompactKey>(list: &mut Vec<(K, i64)>)
    requires
        sums_fit(old(list)@),
    ensures
        compacts_to(old(list)@, final(list)@),
{
    let acc = fold_totals(list);
    let out = narrow(&acc, Ghost(list@));
    *list = out;
}

/// Compacts `list` where every key's total fits an `i64` and returns true;
/// otherwise leaves it as it was and returns false.
pub fn try_compact<K: CompactKey>(list: &mut Vec<(K, i64)>) -> (r: bool)
    ensures
        r == sums_fit(old(list)@),
        r ==> compacts_to(old(list)@, final(list)@),
        !r ==> final(list)@ == old(list)@,
{
    let acc = fold_totals(list);
    let mut t: usize = 0;
    while t < acc.len()
        invariant
            0 <= t <= acc.len(),
            strictly_sorted(wide_ints(acc@)),
            forall|kk: K| #[trigger] sum_at(wide_ints(acc@), kk) == key_sum(list@, kk),
            forall|m: int| 0 <= m < t ==> i64::MIN <= #[trigger] acc@[m].1 <= i64::MAX,
        decreases acc.len() - t,
    {
        let v = acc[t].1;
        proof {
            lemma_sorted_sum(wide_ints(acc@), acc@[t as int].0);
            assert(wide_ints(acc@)[t as int] == (acc@[t as int].0, v as int));
        }
        if v < i64::MIN as i128 || v > i64::MAX as i128 {
            assert(key_sum(list@, acc@[t as int].0) == v);
            return false;
        }
        t += 1;
    }
    assert forall|kk: K| i64::MIN <= #[trigger] key_sum(list@, kk) <= i64::MAX by {
        let w = wide_ints(acc@);
        lemma_sorted_sum(w, kk);
        if exists|j: int| 0 <= j < w.len() && w[j].0 == kk {
            let j = choose|j: int| 0 <= j < w.len() && w[j].0 == kk;
            assert(w[j].1 == acc@[j].1);
        }
    }
    let out = narrow(&acc, Ghost(list@));
    *list = out;
    true
}


} // verus!
