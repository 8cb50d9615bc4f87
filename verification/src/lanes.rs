//! One-dimensional lane logic: the merge pass, the compact pass, and the
//! counters that a move reports.
use vstd::prelude::*;

verus! {

/// Number of decimal digits in `n`, the field width needed to print it.
pub open spec fn dec_width(n: nat) -> nat
    decreases n,
{
    if n < 10 {
        1
    } else {
        1 + dec_width(n / 10)
    }
}

spec fn pow10(k: nat) -> nat
    decreases k,
{
    if k == 0 {
        1
    } else {
        10 * pow10((k - 1) as nat)
    }
}

proof fn lemma_dec_width_pos(n: nat)
    ensures
        1 <= dec_width(n),
    decreases n,
{
    if n >= 10 {
        lemma_dec_width_pos(n / 10);
    }
}

proof fn lemma_dec_width_bound(n: nat, k: nat)
    requires
        1 <= k,
        n < pow10(k),
    ensures
        dec_width(n) <= k,
    decreases k,
{
    if n >= 10 {
        assert(pow10(0) == 1);
        assert(pow10(1) == 10);
        vstd::arithmetic::div_mod::lemma_multiply_divide_lt(
            n as int,
            10,
            pow10((k - 1) as nat) as int,
        );
        lemma_dec_width_bound(n / 10, (k - 1) as nat);
    }
}

pub proof fn lemma_dec_width_le_ten(n: nat)
    requires
        n <= 0xffff_ffff,
    ensures
        1 <= dec_width(n) <= 10,
{
    assert(pow10(10) == 10_000_000_000) by {
        assert(pow10(0) == 1);
        assert(pow10(1) == 10);
        assert(pow10(2) == 100);
        assert(pow10(3) == 1000);
        assert(pow10(4) == 10000);
        assert(pow10(5) == 100000);
        assert(pow10(6) == 1000000);
        assert(pow10(7) == 10000000);
        assert(pow10(8) == 100000000);
        assert(pow10(9) == 1000000000);
    }
    lemma_dec_width_bound(n, 10);
    lemma_dec_width_pos(n);
}

/// Count the decimal digits of `v`.
pub fn digit_width(v: u32) -> (r: usize)
    ensures
        r as nat == dec_width(v as nat),
        1 <= r <= 10,
{
    let mut d: usize = 1;
    let mut x: u32 = v / 10;
    proof {
        lemma_dec_width_le_ten(v as nat);
    }
    while x > 0
        invariant
            x > 0 ==> dec_width(v as nat) == d + dec_width(x as nat),
            x == 0 ==> dec_width(v as nat) == d,
            dec_width(v as nat) <= 10,
            1 <= d <= 10,
        decreases x,
    {
        proof {
            lemma_dec_width_pos(x as nat / 10);
        }
        d = d + 1;
        x = x / 10;
    }
    d
}

/// Values of the cells that hold a tile (are nonzero), in lane order.
pub open spec fn nz_seq(s: Seq<u32>) -> Seq<u32>
    decreases s.len(),
{
    if s.len() == 0 {
        Seq::empty()
    } else if s[0] != 0 {
        seq![s[0]] + nz_seq(s.drop_first())
    } else {
        nz_seq(s.drop_first())
    }
}

/// How many cells of `s` hold a tile.
pub open spec fn nz_count(s: Seq<u32>) -> nat {
    nz_seq(s).len()
}

/// Length of the longest prefix of `s` made of tiles only.
pub open spec fn nz_prefix(s: Seq<u32>) -> nat
    decreases s.len(),
{
    if s.len() == 0 || s[0] == 0 {
        0
    } else {
        1 + nz_prefix(s.drop_first())
    }
}

/// Total of all cell values in the lane.
pub open spec fn lane_sum(s: Seq<u32>) -> int
    decreases s.len(),
{
    if s.len() == 0 {
        0
    } else {
        s[0] + lane_sum(s.drop_first())
    }
}

/// Index of the first cell at or after `from` that holds a tile;
/// `s.len()` if there is none.
pub open spec fn first_nz(s: Seq<u32>, from: int) -> int
    decreases s.len() - from when 0 <= from
{
    if from >= s.len() {
        s.len() as int
    } else if s[from] != 0 {
        from
    } else {
        first_nz(s, from + 1)
    }
}

pub proof fn lemma_first_nz(s: Seq<u32>, from: int)
    requires
        0 <= from,
    ensures
        0 <= first_nz(s, from) <= s.len(),
        from <= s.len() ==> from <= first_nz(s, from),
        first_nz(s, from) < s.len() ==> s[first_nz(s, from)] != 0,
        forall|k: int| from <= k < first_nz(s, from) ==> s[k] == 0,
    decreases (if from <= s.len() { s.len() - from } else { 0 }),
{
    if from >= s.len() {
    } else if s[from] != 0 {
    } else {
        lemma_first_nz(s, from + 1);
    }
}

pub proof fn lemma_nz_bounds(s: Seq<u32>)
    ensures
        nz_prefix(s) <= nz_count(s),
        nz_count(s) <= s.len(),
    decreases s.len(),
{
    if s.len() > 0 {
        lemma_nz_bounds(s.drop_first());
    }
}

pub proof fn lemma_nz_seq_nonzero(s: Seq<u32>)
    ensures
        forall|k: int| 0 <= k < nz_seq(s).len() ==> nz_seq(s)[k] != 0,
    decreases s.len(),
{
    if s.len() > 0 {
        lemma_nz_seq_nonzero(s.drop_first());
        assert forall|k: int| 0 <= k < nz_seq(s).len() implies nz_seq(s)[k] != 0 by {
            if s[0] != 0 {
                if k >= 1 {
                    assert(nz_seq(s)[k] == nz_seq(s.drop_first())[k - 1]);
                }
            } else {
                assert(nz_seq(s)[k] == nz_seq(s.drop_first())[k]);
            }
        }
    }
}

pub proof fn lemma_nz_seq_push(s: Seq<u32>, v: u32)
    ensures
        nz_seq(s.push(v)) == (if v != 0 {
            nz_seq(s).push(v)
        } else {
            nz_seq(s)
        }),
    decreases s.len(),
{
    if s.len() == 0 {
        assert(s.push(v).drop_first() =~= Seq::<u32>::empty());
        assert(nz_seq(Seq::<u32>::empty()) == Seq::<u32>::empty());
        assert(nz_seq(s) == Seq::<u32>::empty());
        if v != 0 {
            assert(nz_seq(s.push(v)) == seq![v] + Seq::<u32>::empty());
            assert(seq![v] + Seq::<u32>::empty() =~= nz_seq(s).push(v));
        } else {
            assert(nz_seq(s.push(v)) == Seq::<u32>::empty());
        }
    } else {
        assert(s.push(v)[0] == s[0]);
        assert(s.push(v).drop_first() =~= s.drop_first().push(v));
        lemma_nz_seq_push(s.drop_first(), v);
        if s[0] != 0 {
            assert(nz_seq(s.push(v)) == seq![s[0]] + nz_seq(s.drop_first().push(v)));
            assert(nz_seq(s) == seq![s[0]] + nz_seq(s.drop_first()));
            if v != 0 {
                assert(seq![s[0]] + nz_seq(s.drop_first()).push(v) =~= (seq![s[0]]
                    + nz_seq(s.drop_first())).push(v));
            }
        } else {
            assert(nz_seq(s.push(v)) == nz_seq(s.drop_first().push(v)));
            assert(nz_seq(s) == nz_seq(s.drop_first()));
        }
    }
}

proof fn lemma_nz_prefix_push(s: Seq<u32>, v: u32)
    ensures
        nz_prefix(s.push(v)) == (if nz_prefix(s) == s.len() && v != 0 {
            s.len() + 1
        } else {
            nz_prefix(s)
        }),
    decreases s.len(),
{
    if s.len() == 0 {
        assert(s.push(v).drop_first() =~= Seq::<u32>::empty());
        assert(s.push(v)[0] == v);
        assert(nz_prefix(Seq::<u32>::empty()) == 0);
        if v != 0 {
            assert(nz_prefix(s.push(v)) == 1 + nz_prefix(Seq::<u32>::empty()));
        }
    } else {
        assert(s.push(v)[0] == s[0]);
        assert(s.push(v).drop_first() =~= s.drop_first().push(v));
        lemma_nz_prefix_push(s.drop_first(), v);
        if s[0] != 0 {
            assert(nz_prefix(s.push(v)) == 1 + nz_prefix(s.drop_first().push(v)));
            assert(nz_prefix(s) == 1 + nz_prefix(s.drop_first()));
            lemma_nz_prefix_props(s.drop_first());
        } else {
            assert(nz_prefix(s.push(v)) == 0);
            assert(nz_prefix(s) == 0);
        }
    }
}

/// A lane with as many tiles as its longest tile prefix has every tile in
/// front: no nonzero cell lies past a zero cell.
proof fn lemma_nz_full_prefix(s: Seq<u32>)
    requires
        nz_count(s) == s.len(),
    ensures
        nz_prefix(s) == s.len(),
        forall|k: int| 0 <= k < s.len() ==> s[k] != 0,
    decreases s.len(),
{
    if s.len() > 0 {
        lemma_nz_bounds(s.drop_first());
        if s[0] == 0 {
            assert(nz_count(s) == nz_count(s.drop_first()));
            assert(false);
        }
        assert(nz_count(s) == 1 + nz_count(s.drop_first()));
        lemma_nz_full_prefix(s.drop_first());
        assert forall|k: int| 0 <= k < s.len() implies s[k] != 0 by {
            if k >= 1 {
                assert(s[k] == s.drop_first()[k - 1]);
            }
        }
    }
}

proof fn lemma_nz_empty_all_zero(s: Seq<u32>)
    requires
        nz_count(s) == 0,
    ensures
        forall|k: int| 0 <= k < s.len() ==> s[k] == 0,
    decreases s.len(),
{
    if s.len() > 0 {
        if s[0] != 0 {
            assert(nz_count(s) == 1 + nz_count(s.drop_first()));
            assert(false);
        }
        assert(nz_count(s) == nz_count(s.drop_first()));
        lemma_nz_empty_all_zero(s.drop_first());
        assert forall|k: int| 0 <= k < s.len() implies s[k] == 0 by {
            if k >= 1 {
                assert(s[k] == s.drop_first()[k - 1]);
            }
        }
    }
}

pub proof fn lemma_nz_prefix_props(s: Seq<u32>)
    ensures
        nz_prefix(s) <= s.len(),
        forall|k: int| 0 <= k < nz_prefix(s) ==> s[k] != 0,
        nz_prefix(s) < s.len() ==> s[nz_prefix(s) as int] == 0,
    decreases s.len(),
{
    if s.len() > 0 && s[0] != 0 {
        lemma_nz_prefix_props(s.drop_first());
        assert(nz_prefix(s) == 1 + nz_prefix(s.drop_first()));
        assert forall|k: int| 0 <= k < nz_prefix(s) implies s[k] != 0 by {
            if k >= 1 {
                assert(s[k] == s.drop_first()[k - 1]);
            }
        }
        if nz_prefix(s) < s.len() {
            assert(s[nz_prefix(s) as int] == s.drop_first()[nz_prefix(s.drop_first()) as int]);
        }
    }
}

proof fn lemma_nz_seq_concat(a: Seq<u32>, b: Seq<u32>)
    ensures
        nz_seq(a + b) == nz_seq(a) + nz_seq(b),
    decreases a.len(),
{
    if a.len() == 0 {
        assert(a + b =~= b);
        assert(nz_seq(a) + nz_seq(b) =~= nz_seq(b));
    } else {
        assert((a + b).drop_first() =~= a.drop_first() + b);
        lemma_nz_seq_concat(a.drop_first(), b);
        if a[0] != 0 {
            assert(seq![a[0]] + (nz_seq(a.drop_first()) + nz_seq(b)) =~= (seq![a[0]]
                + nz_seq(a.drop_first())) + nz_seq(b));
        }
    }
}

proof fn lemma_nz_seq_of_nonzero(s: Seq<u32>)
    requires
        forall|k: int| 0 <= k < s.len() ==> s[k] != 0,
    ensures
        nz_seq(s) == s,
    decreases s.len(),
{
    if s.len() > 0 {
        assert(forall|k: int|
            0 <= k < s.drop_first().len() ==> #[trigger] s.drop_first()[k] != 0);
        lemma_nz_seq_of_nonzero(s.drop_first());
        assert(seq![s[0]] + s.drop_first() =~= s);
    }
}

proof fn lemma_nz_seq_of_zero(s: Seq<u32>)
    requires
        forall|k: int| 0 <= k < s.len() ==> s[k] == 0,
    ensures
        nz_seq(s) == Seq::<u32>::empty(),
    decreases s.len(),
{
    if s.len() > 0 {
        assert(forall|k: int|
            0 <= k < s.drop_first().len() ==> #[trigger] s.drop_first()[k] == 0);
        lemma_nz_seq_of_zero(s.drop_first());
    }
}

proof fn lemma_nz_seq_update(s: Seq<u32>, k: int, v: u32)
    requires
        0 <= k < s.len(),
    ensures
        nz_seq(s.update(k, v)).len() == nz_seq(s).len() + (if v != 0 {
            1int
        } else {
            0int
        }) - (if s[k] != 0 {
            1int
        } else {
            0int
        }),
    decreases s.len(),
{
    if k == 0 {
        assert(s.update(0, v).drop_first() =~= s.drop_first());
    } else {
        assert(s.update(k, v).drop_first() =~= s.drop_first().update(k - 1, v));
        lemma_nz_seq_update(s.drop_first(), k - 1, v);
    }
}

proof fn lemma_sum_update(s: Seq<u32>, k: int, v: u32)
    requires
        0 <= k < s.len(),
    ensures
        lane_sum(s.update(k, v)) == lane_sum(s) - s[k] + v,
    decreases s.len(),
{
    if k == 0 {
        assert(s.update(0, v).drop_first() =~= s.drop_first());
    } else {
        assert(s.update(k, v).drop_first() =~= s.drop_first().update(k - 1, v));
        lemma_sum_update(s.drop_first(), k - 1, v);
    }
}

proof fn lemma_sum_concat(a: Seq<u32>, b: Seq<u32>)
    ensures
        lane_sum(a + b) == lane_sum(a) + lane_sum(b),
    decreases a.len(),
{
    if a.len() == 0 {
        assert(a + b =~= b);
    } else {
        assert((a + b).drop_first() =~= a.drop_first() + b);
        lemma_sum_concat(a.drop_first(), b);
    }
}

proof fn lemma_sum_nz_seq(s: Seq<u32>)
    ensures
        lane_sum(nz_seq(s)) == lane_sum(s),
    decreases s.len(),
{
    if s.len() > 0 {
        lemma_sum_nz_seq(s.drop_first());
        assert(lane_sum(s) == s[0] + lane_sum(s.drop_first()));
        if s[0] != 0 {
            lemma_sum_concat(seq![s[0]], nz_seq(s.drop_first()));
            assert(seq![s[0]].drop_first() =~= Seq::<u32>::empty());
            assert(lane_sum(Seq::<u32>::empty()) == 0);
            assert(lane_sum(seq![s[0]]) == s[0] + lane_sum(Seq::<u32>::empty()));
            assert(nz_seq(s) == seq![s[0]] + nz_seq(s.drop_first()));
        } else {
            assert(nz_seq(s) == nz_seq(s.drop_first()));
        }
    }
}

proof fn lemma_sum_zero_seq(s: Seq<u32>)
    requires
        forall|k: int| 0 <= k < s.len() ==> s[k] == 0,
    ensures
        lane_sum(s) == 0,
    decreases s.len(),
{
    if s.len() > 0 {
        assert(forall|k: int|
            0 <= k < s.drop_first().len() ==> #[trigger] s.drop_first()[k] == 0);
        lemma_sum_zero_seq(s.drop_first());
    }
}

/// Largest value a cell may hold before a move: its double must still fit in
/// a cell after a merge.
pub open spec fn mergeable(s: Seq<u32>, from: int) -> bool {
    forall|k: int| from <= k < s.len() ==> s[k] <= 0x7fff_ffffu32
}

/// One merge pass over lane `s`, scanning from `i` with a fresh anchor.
/// Returns the resulting lane, the number of merges, and the largest digit
/// width among the values the merges produced.
pub open spec fn merge_from(s: Seq<u32>, i: int) -> (Seq<u32>, nat, nat)
    decreases s.len() - i when 0 <= i via merge_from_decreases
{
    let a = first_nz(s, i);
    let b = first_nz(s, a + 1);
    if b >= s.len() {
        (s, 0, 0)
    } else if s[a] == s[b] {
        let m = (s[a] + s[b]) as u32;
        let rest = merge_from(s.update(a, m).update(b, 0), b + 1);
        (
            rest.0,
            rest.1 + 1,
            if dec_width(m as nat) > rest.2 {
                dec_width(m as nat)
            } else {
                rest.2
            },
        )
    } else {
        merge_from(s, b)
    }
}

#[via_fn]
proof fn merge_from_decreases(s: Seq<u32>, i: int) {
    lemma_first_nz(s, i);
    lemma_first_nz(s, first_nz(s, i) + 1);
}

/// The lane after the merge pass.
pub open spec fn merge_pass(s: Seq<u32>) -> Seq<u32> {
    merge_from(s, 0).0
}

/// How many merges the merge pass performs.
pub open spec fn merge_count(s: Seq<u32>) -> nat {
    merge_from(s, 0).1
}

/// The largest digit width among the merged values, 0 if nothing merges.
pub open spec fn merge_width(s: Seq<u32>) -> nat {
    merge_from(s, 0).2
}

/// What one merge pass does to the lane's accounting: the length is kept,
/// cells before the scan start are untouched, each merge removes exactly one
/// tile, the total of the cell values is kept, and every merged value still
/// fits a cell and prints in at most ten digits.
pub proof fn lemma_merge_from_props(s: Seq<u32>, i: int)
    requires
        0 <= i,
        mergeable(s, i),
    ensures
        merge_from(s, i).0.len() == s.len(),
        forall|k: int| 0 <= k < i ==> merge_from(s, i).0[k] == s[k],
        nz_count(merge_from(s, i).0) + merge_from(s, i).1 == nz_count(s),
        merge_from(s, i).1 <= nz_count(s),
        lane_sum(merge_from(s, i).0) == lane_sum(s),
        merge_from(s, i).2 <= 10,
    decreases (if i <= s.len() { s.len() - i } else { 0 }),
{
    lemma_first_nz(s, i);
    let a = first_nz(s, i);
    lemma_first_nz(s, a + 1);
    let b = first_nz(s, a + 1);
    lemma_nz_bounds(s);
    if b >= s.len() {
    } else if s[a] == s[b] {
        assert(a < s.len());
        assert(s[b] != 0);
        assert(s[b] <= 0x7fff_ffffu32);
        let m = (s[a] + s[b]) as u32;
        assert(m != 0);
        let t = s.update(a, m).update(b, 0);
        assert(mergeable(t, b + 1));
        lemma_merge_from_props(t, b + 1);
        lemma_nz_seq_update(s, a, m);
        lemma_nz_seq_update(s.update(a, m), b, 0);
        lemma_sum_update(s, a, m);
        lemma_sum_update(s.update(a, m), b, 0);
        lemma_dec_width_le_ten(m as nat);
        assert forall|k: int| 0 <= k < i implies merge_from(s, i).0[k] == s[k] by {
            assert(merge_from(s, i).0 == merge_from(t, b + 1).0);
            assert(merge_from(t, b + 1).0[k] == t[k]);
        }
    } else {
        lemma_merge_from_props(s, b);
        assert forall|k: int| 0 <= k < i implies merge_from(s, i).0[k] == s[k] by {
            assert(merge_from(s, i).0 == merge_from(s, b).0);
            assert(merge_from(s, b).0[k] == s[k]);
        }
    }
}

/// Two scan starts that meet the same first tile run the same merge pass.
proof fn lemma_merge_from_same_anchor(s: Seq<u32>, i: int, j: int)
    requires
        0 <= i,
        0 <= j,
        first_nz(s, i) == first_nz(s, j),
    ensures
        merge_from(s, i) == merge_from(s, j),
{
    lemma_first_nz(s, i);
    let a = first_nz(s, i);
    lemma_first_nz(s, a + 1);
    let b = first_nz(s, a + 1);
    if b >= s.len() {
    } else if s[a] == s[b] {
        assert(merge_from(s, i) == merge_from(s, j));
    } else {
        assert(merge_from(s, i) == merge_from(s, b));
        assert(merge_from(s, j) == merge_from(s, b));
    }
}

/// A merge pass that merges nothing changes nothing.
proof fn lemma_merge_count_zero(s: Seq<u32>, i: int)
    requires
        0 <= i,
        merge_from(s, i).1 == 0,
    ensures
        merge_from(s, i).0 == s,
    decreases (if i <= s.len() { s.len() - i } else { 0 }),
{
    lemma_first_nz(s, i);
    let a = first_nz(s, i);
    lemma_first_nz(s, a + 1);
    let b = first_nz(s, a + 1);
    if b >= s.len() {
    } else if s[a] == s[b] {
        assert(false);
    } else {
        lemma_merge_count_zero(s, b);
    }
}

/// The lane after the compact pass: tiles slid to the front in their lane
/// order, the freed cells zero.
pub open spec fn compact_pass(s: Seq<u32>) -> Seq<u32> {
    nz_seq(s) + Seq::new((s.len() - nz_seq(s).len()) as nat, |k: int| 0u32)
}

/// How many tiles the compact pass moves: every tile behind the first gap.
pub open spec fn compact_count(s: Seq<u32>) -> nat {
    (nz_count(s) - nz_prefix(s)) as nat
}

/// The lane after a full move step: merge pass, then compact pass.
pub open spec fn lane_result(s: Seq<u32>) -> Seq<u32> {
    compact_pass(merge_pass(s))
}

/// How many tiles fall in a full move step over one lane.
pub open spec fn lane_count(s: Seq<u32>) -> nat {
    merge_count(s) + compact_count(merge_pass(s))
}

/// The largest digit width a move step produces in one lane.
pub open spec fn lane_width(s: Seq<u32>) -> nat {
    merge_width(s)
}

/// What the compact pass keeps: the length, the tiles with their values and
/// order, and the total of the cell values.
pub proof fn lemma_compact_props(s: Seq<u32>)
    ensures
        compact_pass(s).len() == s.len(),
        nz_seq(compact_pass(s)) == nz_seq(s),
        nz_count(compact_pass(s)) == nz_count(s),
        lane_sum(compact_pass(s)) == lane_sum(s),
{
    lemma_nz_bounds(s);
    let pad = Seq::new((s.len() - nz_seq(s).len()) as nat, |k: int| 0u32);
    lemma_nz_seq_nonzero(s);
    lemma_nz_seq_of_nonzero(nz_seq(s));
    lemma_nz_seq_of_zero(pad);
    lemma_nz_seq_concat(nz_seq(s), pad);
    assert(nz_seq(nz_seq(s)) + nz_seq(pad) =~= nz_seq(s));
    lemma_sum_concat(nz_seq(s), pad);
    lemma_sum_nz_seq(s);
    lemma_sum_zero_seq(pad);
}

/// A lane whose tiles already sit in one front run compacts to itself.
proof fn lemma_compact_of_front(s: Seq<u32>)
    requires
        nz_prefix(s) == nz_count(s),
    ensures
        compact_pass(s) == s,
{
    lemma_nz_bounds(s);
    lemma_nz_prefix_props(s);
    lemma_nz_seq_nonzero(s);
    lemma_compact_props(s);
    let c = compact_pass(s);
    assert forall|k: int| 0 <= k < s.len() implies c[k] == s[k] by {
        if k < nz_count(s) {
            assert(c[k] == nz_seq(s)[k]);
            assert(s[k] != 0);
            lemma_nz_seq_prefix_id(s, k);
        } else {
            assert(c[k] == 0);
            lemma_zero_past_prefix(s, k);
        }
    }
    assert(c =~= s);
}

/// Within the tile prefix, the k-th tile value is the k-th cell.
proof fn lemma_nz_seq_prefix_id(s: Seq<u32>, k: int)
    requires
        0 <= k < nz_prefix(s),
    ensures
        nz_seq(s)[k] == s[k],
    decreases s.len(),
{
    lemma_nz_prefix_props(s);
    lemma_nz_bounds(s.drop_first());
    assert(s[0] != 0);
    assert(nz_seq(s) == seq![s[0]] + nz_seq(s.drop_first()));
    assert(nz_prefix(s) == 1 + nz_prefix(s.drop_first()));
    if k == 0 {
        assert((seq![s[0]] + nz_seq(s.drop_first()))[0] == s[0]);
    } else {
        lemma_nz_seq_prefix_id(s.drop_first(), k - 1);
        assert((seq![s[0]] + nz_seq(s.drop_first()))[k] == nz_seq(s.drop_first())[k - 1]);
        assert(s.drop_first()[k - 1] == s[k]);
    }
}

/// Past a tile prefix that holds every tile, every cell is zero.
proof fn lemma_zero_past_prefix(s: Seq<u32>, k: int)
    requires
        nz_prefix(s) == nz_count(s),
        nz_count(s) <= k < s.len(),
    ensures
        s[k] == 0,
    decreases s.len(),
{
    lemma_nz_bounds(s.drop_first());
    if s[0] != 0 {
        assert(nz_seq(s) == seq![s[0]] + nz_seq(s.drop_first()));
        assert(nz_prefix(s) == 1 + nz_prefix(s.drop_first()));
        lemma_zero_past_prefix(s.drop_first(), k - 1);
        assert(s.drop_first()[k - 1] == s[k]);
    } else {
        assert(nz_prefix(s) == 0);
        lemma_nz_empty_all_zero(s);
    }
}

/// The compact pass moves no tile exactly when it changes nothing.
proof fn lemma_compact_fixpoint(s: Seq<u32>)
    ensures
        (compact_count(s) == 0) <==> (compact_pass(s) == s),
{
    lemma_nz_bounds(s);
    if compact_count(s) == 0 {
        lemma_compact_of_front(s);
    } else {
        let z = nz_prefix(s) as int;
        lemma_nz_prefix_props(s);
        lemma_nz_seq_nonzero(s);
        assert(z < nz_count(s) <= s.len());
        assert(s[z] == 0);
        assert(compact_pass(s)[z] == nz_seq(s)[z]);
        assert(compact_pass(s)[z] != 0);
        assert(compact_pass(s) != s);
    }
}

/// After a move's two passes a lane has at most as many tiles as before:
/// each merge removes exactly one tile (two tiles of value v become one of
/// 2v), and the total of all cell values is unchanged, since the compact
/// pass only moves tiles.
pub proof fn lemma_lane_conservation(s: Seq<u32>)
    requires
        mergeable(s, 0),
    ensures
        lane_result(s).len() == s.len(),
        nz_count(lane_result(s)) + merge_count(s) == nz_count(s),
        nz_count(lane_result(s)) <= nz_count(s),
        lane_sum(lane_result(s)) == lane_sum(s),
{
    lemma_merge_from_props(s, 0);
    lemma_compact_props(merge_pass(s));
}

/// The compact pass keeps the relative order of the tiles: the nonzero
/// values, read in lane order, are the same before and after it.
pub proof fn lemma_compact_preserves_order(s: Seq<u32>)
    ensures
        nz_seq(compact_pass(s)) == nz_seq(s),
{
    lemma_compact_props(s);
}

/// The greedy pairwise merge of a run of tile values: two equal neighbours
/// become their double, each tile merges at most once, resolved front to
/// back.
pub open spec fn merged_vals(v: Seq<u32>) -> Seq<u32>
    decreases v.len(),
{
    if v.len() == 0 {
        Seq::empty()
    } else if v.len() >= 2 && v[0] == v[1] {
        seq![(v[0] + v[1]) as u32] + merged_vals(v.skip(2))
    } else {
        seq![v[0]] + merged_vals(v.skip(1))
    }
}

/// A lane with exactly one tile has that tile's value as its tile run.
proof fn lemma_nz_seq_single(u: Seq<u32>, p: int)
    requires
        0 <= p < u.len(),
        u[p] != 0,
        forall|k: int| 0 <= k < u.len() && k != p ==> u[k] == 0,
    ensures
        nz_seq(u) == seq![u[p]],
    decreases u.len(),
{
    assert(forall|k: int|
        0 <= k < u.drop_first().len() ==> #[trigger] u.drop_first()[k] == u[k + 1]);
    if p == 0 {
        lemma_nz_seq_of_zero(u.drop_first());
        assert(nz_seq(u) == seq![u[0]] + nz_seq(u.drop_first()));
        assert(seq![u[0]] + Seq::<u32>::empty() =~= seq![u[0]]);
    } else {
        lemma_nz_seq_single(u.drop_first(), p - 1);
        assert(nz_seq(u) == nz_seq(u.drop_first()));
    }
}

/// The tile run of a suffix starts at the first tile the suffix holds.
proof fn lemma_nz_skip_first(s: Seq<u32>, i: int)
    requires
        0 <= i <= s.len(),
    ensures
        nz_seq(s.skip(i)) == (if first_nz(s, i) < s.len() {
            seq![s[first_nz(s, i)]] + nz_seq(s.skip(first_nz(s, i) + 1))
        } else {
            Seq::<u32>::empty()
        }),
    decreases s.len() - i,
{
    lemma_first_nz(s, i);
    if i == s.len() {
        assert(s.skip(i) =~= Seq::<u32>::empty());
    } else if s[i] != 0 {
        assert(s.skip(i)[0] == s[i]);
        assert(s.skip(i).drop_first() =~= s.skip(i + 1));
        assert(nz_seq(s.skip(i)) == seq![s[i]] + nz_seq(s.skip(i).drop_first()));
    } else {
        assert(s.skip(i)[0] == s[i]);
        assert(s.skip(i).drop_first() =~= s.skip(i + 1));
        assert(nz_seq(s.skip(i)) == nz_seq(s.skip(i + 1)));
        lemma_nz_skip_first(s, i + 1);
    }
}

/// What the merge pass leaves of the tiles: scanning from `i`, the cells
/// before `i` keep their tiles, and the tiles from `i` on are the greedy
/// pairwise merge of the tile run.
proof fn lemma_merge_from_values(s: Seq<u32>, i: int)
    requires
        0 <= i <= s.len(),
        mergeable(s, i),
    ensures
        nz_seq(merge_from(s, i).0) == nz_seq(s.take(i)) + merged_vals(nz_seq(s.skip(i))),
    decreases s.len() - i,
{
    lemma_first_nz(s, i);
    let a = first_nz(s, i);
    lemma_first_nz(s, a + 1);
    let b = first_nz(s, a + 1);
    lemma_nz_skip_first(s, i);
    if b >= s.len() {
        lemma_nz_seq_concat(s.take(i), s.skip(i));
        assert(s.take(i) + s.skip(i) =~= s);
        if a < s.len() {
            assert(forall|k: int| a + 1 <= k < s.len() ==> s[k] == 0);
            assert(forall|k: int|
                0 <= k < s.skip(a + 1).len() ==> #[trigger] s.skip(a + 1)[k] == s[k + a + 1]);
            lemma_nz_seq_of_zero(s.skip(a + 1));
            assert(nz_seq(s.skip(i)) == seq![s[a]] + Seq::<u32>::empty());
            assert(nz_seq(s.skip(i)) =~= seq![s[a]]);
            assert(merged_vals(nz_seq(s.skip(i))) == seq![s[a]] + merged_vals(
                nz_seq(s.skip(i)).skip(1),
            ));
            assert(nz_seq(s.skip(i)).skip(1) =~= Seq::<u32>::empty());
            assert(seq![s[a]] + Seq::<u32>::empty() =~= seq![s[a]]);
        } else {
            assert(nz_seq(s.skip(i)) == Seq::<u32>::empty());
        }
        assert(nz_seq(s.take(i)) + merged_vals(nz_seq(s.skip(i))) =~= nz_seq(s));
    } else if s[a] == s[b] {
        let v = s[a];
        let m = (s[a] + s[b]) as u32;
        let t = s.update(a, m).update(b, 0);
        assert(m != 0);
        lemma_merge_from_values(t, b + 1);
        assert(merge_from(s, i).0 == merge_from(t, b + 1).0);
        assert(t.skip(b + 1) =~= s.skip(b + 1));
        assert(t.take(b + 1) =~= t.take(i) + t.subrange(i, b + 1));
        assert(t.take(i) =~= s.take(i));
        lemma_nz_seq_concat(t.take(i), t.subrange(i, b + 1));
        assert(forall|k: int|
            0 <= k < t.subrange(i, b + 1).len() ==> #[trigger] t.subrange(i, b + 1)[k] == t[k
                + i]);
        lemma_nz_seq_single(t.subrange(i, b + 1), a - i);
        assert(nz_seq(t.take(b + 1)) == nz_seq(s.take(i)) + seq![m]);
        // the tile run from i starts v, v, then the tiles past b
        lemma_nz_skip_first(s, a + 1);
        assert(nz_seq(s.skip(i)) == seq![v] + (seq![v] + nz_seq(s.skip(b + 1))));
        assert(nz_seq(s.skip(i)) =~= seq![v, v] + nz_seq(s.skip(b + 1)));
        assert(nz_seq(s.skip(i))[0] == v && nz_seq(s.skip(i))[1] == v);
        assert(merged_vals(nz_seq(s.skip(i))) == seq![m] + merged_vals(
            nz_seq(s.skip(i)).skip(2),
        ));
        assert(nz_seq(s.skip(i)).skip(2) =~= nz_seq(s.skip(b + 1)));
        assert((nz_seq(s.take(i)) + seq![m]) + merged_vals(nz_seq(s.skip(b + 1))) =~= nz_seq(
            s.take(i),
        ) + (seq![m] + merged_vals(nz_seq(s.skip(b + 1)))));
    } else {
        let v = s[a];
        lemma_merge_from_values(s, b);
        assert(merge_from(s, i).0 == merge_from(s, b).0);
        assert(s.take(b) =~= s.take(i) + s.subrange(i, b));
        lemma_nz_seq_concat(s.take(i), s.subrange(i, b));
        assert(forall|k: int|
            0 <= k < s.subrange(i, b).len() ==> #[trigger] s.subrange(i, b)[k] == s[k + i]);
        lemma_nz_seq_single(s.subrange(i, b), a - i);
        assert(nz_seq(s.take(b)) == nz_seq(s.take(i)) + seq![v]);
        lemma_nz_skip_first(s, a + 1);
        lemma_nz_skip_first(s, b);
        assert(first_nz(s, b) == b);
        assert(nz_seq(s.skip(i)) == seq![v] + nz_seq(s.skip(b)));
        assert(nz_seq(s.skip(b)) == seq![s[b]] + nz_seq(s.skip(b + 1)));
        assert(nz_seq(s.skip(i)).len() >= 2);
        assert(nz_seq(s.skip(i))[0] == v && nz_seq(s.skip(i))[1] == s[b]);
        assert(merged_vals(nz_seq(s.skip(i))) == seq![v] + merged_vals(
            nz_seq(s.skip(i)).skip(1),
        ));
        assert(nz_seq(s.skip(i)).skip(1) =~= nz_seq(s.skip(b)));
        assert((nz_seq(s.take(i)) + seq![v]) + merged_vals(nz_seq(s.skip(b))) =~= nz_seq(
            s.take(i),
        ) + (seq![v] + merged_vals(nz_seq(s.skip(b)))));
    }
}

/// The tiles a move step leaves, with their values and order, are exactly
/// the greedy pairwise merge of the tiles it found: two equal neighbours of
/// value v survive as one tile of 2v, every other tile survives unchanged.
pub proof fn lemma_lane_values(s: Seq<u32>)
    requires
        mergeable(s, 0),
    ensures
        nz_seq(lane_result(s)) == merged_vals(nz_seq(s)),
{
    lemma_merge_from_values(s, 0);
    lemma_compact_props(merge_pass(s));
    assert(s.take(0) =~= Seq::<u32>::empty());
    assert(s.skip(0) =~= s);
    assert(Seq::<u32>::empty() + merged_vals(nz_seq(s)) =~= merged_vals(nz_seq(s)));
}

/// A move step reports no fallen tile exactly when it leaves the lane as it
/// was; so repeating a move is a no-op precisely when the repeat reports 0.
pub proof fn lemma_lane_fixpoint(s: Seq<u32>)
    requires
        mergeable(s, 0),
    ensures
        (lane_count(s) == 0) <==> (lane_result(s) == s),
{
    lemma_merge_from_props(s, 0);
    lemma_compact_props(merge_pass(s));
    lemma_compact_fixpoint(merge_pass(s));
    if lane_count(s) == 0 {
        lemma_merge_count_zero(s, 0);
    } else if lane_result(s) == s {
        if merge_count(s) > 0 {
            assert(nz_count(lane_result(s)) < nz_count(s));
            assert(false);
        } else {
            lemma_merge_count_zero(s, 0);
            assert(compact_pass(s) != s);
            assert(false);
        }
    }
}

/// The largest cell value in the lane, 0 when it is empty.
pub open spec fn cell_max(s: Seq<u32>) -> u32
    decreases s.len(),
{
    if s.len() == 0 {
        0u32
    } else if s[0] > cell_max(s.drop_first()) {
        s[0]
    } else {
        cell_max(s.drop_first())
    }
}

/// Every cell is at most the lane's largest value, and the largest value
/// is at most any bound that every cell meets.
pub proof fn lemma_cell_max(s: Seq<u32>, bound: u32)
    requires
        forall|k: int| 0 <= k < s.len() ==> s[k] <= bound,
    ensures
        forall|k: int| 0 <= k < s.len() ==> s[k] <= cell_max(s),
        cell_max(s) <= bound,
    decreases s.len(),
{
    if s.len() > 0 {
        assert(forall|k: int|
            0 <= k < s.drop_first().len() ==> #[trigger] s.drop_first()[k] == s[k + 1]);
        lemma_cell_max(s.drop_first(), bound);
        assert forall|k: int| 0 <= k < s.len() implies s[k] <= cell_max(s) by {
            if k >= 1 {
                assert(s[k] == s.drop_first()[k - 1]);
            }
        }
    }
}

/// The merge pass at most doubles a cell value: every cell of its result
/// is at most twice the given bound on the scanned cells.
proof fn lemma_merge_values_bound(s: Seq<u32>, i: int, bound: u32)
    requires
        0 <= i,
        mergeable(s, i),
        forall|k: int| 0 <= k < s.len() ==> s[k] as int <= 2 * bound,
        forall|k: int| i <= k < s.len() ==> s[k] <= bound,
    ensures
        forall|k: int| 0 <= k < s.len() ==> merge_from(s, i).0[k] as int <= 2 * bound,
    decreases (if i <= s.len() { s.len() - i } else { 0 }),
{
    lemma_first_nz(s, i);
    let a = first_nz(s, i);
    lemma_first_nz(s, a + 1);
    let b = first_nz(s, a + 1);
    if b >= s.len() {
    } else if s[a] == s[b] {
        let m = (s[a] + s[b]) as u32;
        let t = s.update(a, m).update(b, 0);
        lemma_merge_values_bound(t, b + 1, bound);
        assert forall|k: int| 0 <= k < s.len() implies merge_from(s, i).0[k] as int <= 2
            * bound by {
            assert(merge_from(s, i).0 == merge_from(t, b + 1).0);
        }
    } else {
        lemma_merge_values_bound(s, b, bound);
        assert forall|k: int| 0 <= k < s.len() implies merge_from(s, i).0[k] as int <= 2
            * bound by {
            assert(merge_from(s, i).0 == merge_from(s, b).0);
        }
    }
}

proof fn lemma_nz_seq_values_bound(s: Seq<u32>, c: int)
    requires
        forall|k: int| 0 <= k < s.len() ==> s[k] as int <= c,
    ensures
        forall|k: int| 0 <= k < nz_seq(s).len() ==> nz_seq(s)[k] as int <= c,
    decreases s.len(),
{
    if s.len() > 0 {
        assert(forall|k: int|
            0 <= k < s.drop_first().len() ==> #[trigger] s.drop_first()[k] == s[k + 1]);
        lemma_nz_seq_values_bound(s.drop_first(), c);
        assert forall|k: int| 0 <= k < nz_seq(s).len() implies nz_seq(s)[k] as int <= c by {
            if s[0] != 0 {
                if k >= 1 {
                    assert(nz_seq(s)[k] == nz_seq(s.drop_first())[k - 1]);
                }
            } else {
                assert(nz_seq(s)[k] == nz_seq(s.drop_first())[k]);
            }
        }
    }
}

/// A move step at most doubles a cell value: whatever bound every cell of
/// the lane meets before the move, twice that bound holds after it.
pub proof fn lemma_lane_result_bound(s: Seq<u32>, bound: u32)
    requires
        mergeable(s, 0),
        forall|k: int| 0 <= k < s.len() ==> s[k] <= bound,
    ensures
        forall|k: int| 0 <= k < lane_result(s).len() ==> lane_result(s)[k] as int <= 2 * bound,
{
    lemma_merge_from_props(s, 0);
    lemma_merge_values_bound(s, 0, bound);
    let t = merge_pass(s);
    lemma_nz_seq_values_bound(t, 2 * bound);
    lemma_nz_bounds(t);
    assert forall|k: int| 0 <= k < lane_result(s).len() implies lane_result(s)[k] as int <= 2
        * bound by {
        if k < nz_seq(t).len() {
            assert(lane_result(s)[k] == nz_seq(t)[k]);
        } else {
            assert(lane_result(s)[k] == 0);
        }
    }
}

/// Find the first cell at or after `from` that holds a tile.
fn find_nz(lane: &Vec<u32>, from: usize) -> (r: usize)
    requires
        from <= lane@.len(),
    ensures
        r as int == first_nz(lane@, from as int),
        r <= lane@.len(),
{
    let n = lane.len();
    let mut i = from;
    while i < n && lane[i] == 0
        invariant
            from <= i <= n,
            n == lane@.len(),
            first_nz(lane@, from as int) == first_nz(lane@, i as int),
        decreases n - i,
    {
        i = i + 1;
    }
    i
}

/// Run the merge pass over one lane, in place. Returns how many merges
/// happened and the largest digit width among the merged values.
pub(crate) fn merge_lane(lane: &mut Vec<u32>) -> (r: (u32, usize))
    requires
        old(lane)@.len() <= 46340,
        mergeable(old(lane)@, 0),
    ensures
        final(lane)@ == merge_pass(old(lane)@),
        r.0 as nat == merge_count(old(lane)@),
        r.1 as nat == merge_width(old(lane)@),
        r.0 as nat <= old(lane)@.len(),
{
    let ghost orig = lane@;
    let n = lane.len();
    let mut count: u32 = 0;
    let mut width: usize = 0;
    proof {
        lemma_merge_from_props(orig, 0);
        lemma_nz_bounds(orig);
    }
    let mut a = find_nz(lane, 0);
    proof {
        lemma_first_nz(orig, 0);
    }
    if a == n {
        proof {
            assert(first_nz(orig, n as int + 1) == n as int);
            assert(merge_from(orig, 0).0 == orig);
        }
        return (0, 0);
    }
    proof {
        lemma_merge_from_same_anchor(orig, 0, a as int);
    }
    loop
        invariant
            orig == old(lane)@,
            lane@.len() == n,
            n == orig.len(),
            n <= 46340,
            a < n,
            merge_from(lane@, a as int).0 == merge_from(orig, 0).0,
            count as nat + merge_from(lane@, a as int).1 == merge_from(orig, 0).1,
            (if merge_from(lane@, a as int).2 > width as nat {
                merge_from(lane@, a as int).2
            } else {
                width as nat
            }) == merge_from(orig, 0).2,
            merge_from(orig, 0).1 <= nz_count(orig),
            nz_count(orig) <= n,
            merge_from(orig, 0).2 <= 10,
            width <= 10,
            forall|k: int| a < k < n ==> lane@[k] <= 0x7fff_ffffu32,
        decreases n - a,
    {
        let b = find_nz(lane, a + 1);
        proof {
            lemma_first_nz(lane@, a + 1);
        }
        if b == n {
            proof {
                let s = lane@;
                lemma_first_nz(s, a as int);
                if s[a as int] != 0 {
                    assert(first_nz(s, a as int) == a);
                    assert(merge_from(s, a as int).0 == s);
                } else {
                    assert(first_nz(s, a as int) == first_nz(s, a + 1));
                    assert(first_nz(s, n as int + 1) == n as int);
                    assert(merge_from(s, a as int).0 == s);
                }
                assert(merge_from(s, a as int).1 == 0);
                assert(merge_from(s, a as int).2 == 0);
            }
            return (count, width);
        }
        let va = lane[a];
        let vb = lane[b];
        if va == vb {
            proof {
                assert(lane@[b as int] != 0);
                assert(lane@[b as int] <= 0x7fff_ffffu32);
            }
            let ghost prev = lane@;
            let m = va + vb;
            lane[a] = m;
            lane[b] = 0;
            let w = digit_width(m);
            if w > width {
                width = w;
            }
            count = count + 1;
            proof {
                let t = prev.update(a as int, m).update(b as int, 0u32);
                assert(lane@ == t);
                assert(first_nz(prev, a as int) == a);
                assert(merge_from(prev, a as int).0 == merge_from(t, b as int + 1).0);
                assert(merge_from(prev, a as int).1 == merge_from(t, b as int + 1).1 + 1);
                assert(t[b as int] == 0);
                assert(first_nz(t, b as int) == first_nz(t, b as int + 1));
                lemma_merge_from_same_anchor(t, b as int, b as int + 1);
                assert forall|k: int| b < k < n implies lane@[k] <= 0x7fff_ffffu32 by {
                    assert(lane@[k] == prev[k]);
                }
            }
            a = b;
        } else {
            proof {
                if lane@[a as int] != 0 {
                    assert(first_nz(lane@, a as int) == a);
                    assert(merge_from(lane@, a as int) == merge_from(lane@, b as int));
                } else {
                    assert(first_nz(lane@, a as int) == first_nz(lane@, a + 1));
                    lemma_merge_from_same_anchor(lane@, a as int, b as int);
                }
            }
            a = b;
        }
    }
}

/// Run the compact pass over one lane, in place: slide every tile toward
/// the front, keeping the order. Returns how many tiles moved.
pub(crate) fn compact_lane(lane: &mut Vec<u32>) -> (r: u32)
    requires
        old(lane)@.len() <= 46340,
    ensures
        final(lane)@ == compact_pass(old(lane)@),
        r as nat == compact_count(old(lane)@),
        r as nat <= old(lane)@.len(),
{
    let ghost orig = lane@;
    let n = lane.len();
    let mut w: usize = 0;
    let mut count: u32 = 0;
    let mut j: usize = 0;
    proof {
        assert(orig.take(0) =~= Seq::<u32>::empty());
    }
    while j < n
        invariant
            orig == old(lane)@,
            n == orig.len(),
            n <= 46340,
            lane@.len() == n,
            w <= j <= n,
            lane@.subrange(0, w as int) == nz_seq(orig.take(j as int)),
            w as nat == nz_count(orig.take(j as int)),
            count as nat + nz_prefix(orig.take(j as int)) == w as nat,
            forall|k: int| w <= k < j ==> lane@[k] == 0,
            forall|k: int| j <= k < n ==> lane@[k] == orig[k],
        decreases n - j,
    {
        let ghost tj = orig.take(j as int);
        proof {
            lemma_nz_bounds(tj);
            assert(orig.take(j as int + 1) =~= tj.push(orig[j as int]));
            lemma_nz_seq_push(tj, orig[j as int]);
            lemma_nz_prefix_push(tj, orig[j as int]);
        }
        let v = lane[j];
        if v != 0 {
            if w < j {
                proof {
                    lemma_nz_full_prefix_converse(tj, w as int, j as int);
                }
                lane[w] = v;
                lane[j] = 0;
                count = count + 1;
                proof {
                    assert(lane@.subrange(0, w as int + 1) =~= nz_seq(tj).push(v));
                }
            } else {
                proof {
                    lemma_nz_full_prefix(tj);
                    assert(lane@.subrange(0, w as int + 1) =~= nz_seq(tj).push(v));
                }
            }
            w = w + 1;
        }
        proof {
            if v == 0 {
                assert(lane@.subrange(0, w as int) =~= nz_seq(tj));
            }
        }
        j = j + 1;
    }
    proof {
        assert(orig.take(n as int) =~= orig);
        lemma_nz_bounds(orig);
        let pad = Seq::new((orig.len() - nz_seq(orig).len()) as nat, |k: int| 0u32);
        assert(lane@ =~= nz_seq(orig) + pad);
    }
    count
}

/// A lane whose tile count exceeds some position of a zero cell has a
/// broken tile prefix.
proof fn lemma_nz_full_prefix_converse(s: Seq<u32>, w: int, j: int)
    requires
        0 <= w < j == s.len(),
        nz_count(s) == w,
    ensures
        nz_prefix(s) < s.len(),
{
    lemma_nz_bounds(s);
    if nz_prefix(s) == s.len() {
        lemma_nz_full_prefix_aux(s);
    }
}

proof fn lemma_nz_full_prefix_aux(s: Seq<u32>)
    requires
        nz_prefix(s) == s.len(),
    ensures
        nz_count(s) == s.len(),
    decreases s.len(),
{
    if s.len() > 0 {
        lemma_nz_full_prefix_aux(s.drop_first());
        assert(nz_seq(s) == seq![s[0]] + nz_seq(s.drop_first()));
    }
}

} // verus!
