use vstd::prelude::*;

verus! {

/// Largest value a cell may hold so that merging two equal cells cannot
/// overflow a `u32`.
pub const CELL_BOUND: u32 = 0x7FFF_FFFF;

/// Every entry of the line fits under `CELL_BOUND`.
pub open spec fn line_bounded(l: Seq<u32>) -> bool {
    forall|k: int| 0 <= k < l.len() ==> l[k] <= CELL_BOUND
}

/// The value of a tile after it merges with an equal tile.
pub open spec fn dbl(v: u32) -> u32 {
    (v + v) as u32
}

/// The tiles of a line in order, with the empty cells removed.
pub open spec fn nonzeros(l: Seq<u32>) -> Seq<u32>
    decreases l.len(),
{
    if l.len() == 0 {
        Seq::empty()
    } else if l[0] == 0 {
        nonzeros(l.skip(1))
    } else {
        seq![l[0]] + nonzeros(l.skip(1))
    }
}

/// One merging scan from the edge the tiles slide toward: each adjacent
/// pair of equal tiles becomes one doubled tile, and the scan then moves
/// past the pair, so no tile merges twice.
pub open spec fn merge_pairs(l: Seq<u32>) -> Seq<u32>
    decreases l.len(),
{
    if l.len() >= 2 && l[0] == l[1] {
        seq![dbl(l[0])] + merge_pairs(l.skip(2))
    } else if l.len() >= 1 {
        seq![l[0]] + merge_pairs(l.skip(1))
    } else {
        Seq::empty()
    }
}

/// A run of `k` empty cells.
pub open spec fn zero_run(k: nat) -> Seq<u32> {
    Seq::new(k, |i: int| 0u32)
}

/// The tiles of a line after compacting and merging toward the front.
pub open spec fn merged_line(l: Seq<u32>) -> Seq<u32> {
    merge_pairs(nonzeros(l))
}

/// The canonical post-slide state of one line: compact, merge once,
/// pad with empty cells on the trailing side.
pub open spec fn slide_line_spec(l: Seq<u32>) -> Seq<u32> {
    merged_line(l) + zero_run((l.len() - merged_line(l).len()) as nat)
}

/// `v` occurs somewhere in `l`.
pub open spec fn appears(l: Seq<u32>, v: u32) -> bool {
    exists|j: int| 0 <= j < l.len() && l[j] == v
}

/// A measure of a line: the weights of its cells, summed.
pub open spec fn line_meas(l: Seq<u32>, f: spec_fn(u32) -> int) -> int
    decreases l.len(),
{
    if l.len() == 0 {
        0
    } else {
        f(l[0]) + line_meas(l.skip(1), f)
    }
}

/// Weight that counts empty cells.
pub open spec fn zero_weight() -> spec_fn(u32) -> int {
    |v: u32| if v == 0 { 1int } else { 0int }
}

/// Weight that adds cell values.
pub open spec fn sum_weight() -> spec_fn(u32) -> int {
    |v: u32| v as int
}

/// How many cells of the line are empty.
pub open spec fn line_zeros(l: Seq<u32>) -> int {
    line_meas(l, zero_weight())
}

/// The total of all cell values of the line.
pub open spec fn line_sum(l: Seq<u32>) -> int {
    line_meas(l, sum_weight())
}

pub proof fn lemma_meas_app(a: Seq<u32>, b: Seq<u32>, f: spec_fn(u32) -> int)
    ensures
        line_meas(a + b, f) == line_meas(a, f) + line_meas(b, f),
    decreases a.len(),
{
    if a.len() == 0 {
        assert(a + b =~= b);
    } else {
        assert((a + b).skip(1) =~= a.skip(1) + b);
        assert((a + b)[0] == a[0]);
        lemma_meas_app(a.skip(1), b, f);
    }
}

pub proof fn lemma_meas_singleton(x: u32, f: spec_fn(u32) -> int)
    ensures
        line_meas(seq![x], f) == f(x),
{
    assert(seq![x].skip(1) =~= Seq::<u32>::empty());
    assert(line_meas(seq![x].skip(1), f) == 0);
}

pub proof fn lemma_meas_reverse(l: Seq<u32>, f: spec_fn(u32) -> int)
    ensures
        line_meas(l.reverse(), f) == line_meas(l, f),
    decreases l.len(),
{
    if l.len() == 0 {
        assert(l.reverse() =~= l);
    } else {
        let m = l.len() - 1;
        assert(l =~= l.take(m) + seq![l[m]]);
        lemma_meas_app(l.take(m), seq![l[m]], f);
        lemma_meas_singleton(l[m], f);
        assert(l.reverse()[0] == l[m]);
        assert(l.reverse().skip(1) =~= l.take(m).reverse());
        lemma_meas_reverse(l.take(m), f);
        assert(line_meas(l.reverse(), f) == f(l[m]) + line_meas(l.take(m).reverse(), f));
        assert(line_meas(l, f) == line_meas(l.take(m), f) + f(l[m]));
    }
}

pub proof fn lemma_zero_run(k: nat)
    ensures
        line_zeros(zero_run(k)) == k,
        line_sum(zero_run(k)) == 0,
        nonzeros(zero_run(k)) == Seq::<u32>::empty(),
    decreases k,
{
    if k == 0 {
        assert(zero_run(k) =~= Seq::<u32>::empty());
        assert(nonzeros(zero_run(k)) =~= Seq::<u32>::empty());
    } else {
        assert(zero_run(k).skip(1) =~= zero_run((k - 1) as nat));
        lemma_zero_run((k - 1) as nat);
        assert(zero_run(k)[0] == 0);
        assert(nonzeros(zero_run(k)) == nonzeros(zero_run(k).skip(1)));
    }
}

pub proof fn lemma_nonzeros_app(a: Seq<u32>, b: Seq<u32>)
    ensures
        nonzeros(a + b) == nonzeros(a) + nonzeros(b),
    decreases a.len(),
{
    if a.len() == 0 {
        assert(a + b =~= b);
        assert(nonzeros(a) =~= Seq::<u32>::empty());
        assert(nonzeros(a) + nonzeros(b) =~= nonzeros(b));
    } else {
        assert((a + b).skip(1) =~= a.skip(1) + b);
        assert((a + b)[0] == a[0]);
        lemma_nonzeros_app(a.skip(1), b);
        if a[0] == 0 {
            assert(nonzeros(a) == nonzeros(a.skip(1)));
        } else {
            assert(seq![a[0]] + (nonzeros(a.skip(1)) + nonzeros(b)) =~= (seq![a[0]] + nonzeros(
                a.skip(1),
            )) + nonzeros(b));
        }
    }
}

/// Every compacted entry is a nonzero value taken from the line.
pub proof fn lemma_nonzeros_basic(l: Seq<u32>)
    ensures
        nonzeros(l).len() <= l.len(),
        forall|k: int|
            0 <= k < nonzeros(l).len() ==> #[trigger] nonzeros(l)[k] != 0 && appears(
                l,
                nonzeros(l)[k],
            ),
    decreases l.len(),
{
    if l.len() == 0 {
    } else {
        lemma_nonzeros_basic(l.skip(1));
        assert forall|k: int| 0 <= k < nonzeros(l).len() implies #[trigger] nonzeros(l)[k] != 0
            && appears(l, nonzeros(l)[k]) by {
            if l[0] == 0 {
                let v = nonzeros(l)[k];
                assert(nonzeros(l.skip(1))[k] == v);
                let j = choose|j: int| 0 <= j < l.skip(1).len() && l.skip(1)[j] == v;
                assert(l[j + 1] == v);
            } else {
                if k == 0 {
                    assert(nonzeros(l)[0] == l[0]);
                } else {
                    let v = nonzeros(l)[k];
                    assert(nonzeros(l.skip(1))[k - 1] == v);
                    let j = choose|j: int| 0 <= j < l.skip(1).len() && l.skip(1)[j] == v;
                    assert(l[j + 1] == v);
                }
            }
        }
    }
}

/// A line without empty cells compacts to itself.
pub proof fn lemma_nonzeros_all_nonzero(l: Seq<u32>)
    requires
        forall|k: int| 0 <= k < l.len() ==> l[k] != 0,
    ensures
        nonzeros(l) == l,
    decreases l.len(),
{
    if l.len() == 0 {
        assert(nonzeros(l) =~= l);
    } else {
        lemma_nonzeros_all_nonzero(l.skip(1));
        assert(nonzeros(l) =~= l);
    }
}

/// A line whose compaction has full length has no empty cells.
pub proof fn lemma_nonzeros_full(l: Seq<u32>)
    requires
        nonzeros(l).len() == l.len(),
    ensures
        nonzeros(l) == l,
    decreases l.len(),
{
    if l.len() == 0 {
        assert(nonzeros(l) =~= l);
    } else {
        lemma_nonzeros_basic(l.skip(1));
        if l[0] == 0 {
            assert(nonzeros(l).len() <= l.len() - 1);
        } else {
            assert(nonzeros(l.skip(1)).len() == l.skip(1).len());
            lemma_nonzeros_full(l.skip(1));
            assert(nonzeros(l) =~= l);
        }
    }
}

/// The empty cells of a line are exactly the cells its compaction drops.
pub proof fn lemma_zeros_nonzeros(l: Seq<u32>)
    ensures
        line_zeros(l) == l.len() - nonzeros(l).len(),
        line_zeros(l) >= 0,
    decreases l.len(),
{
    if l.len() == 0 {
    } else {
        lemma_zeros_nonzeros(l.skip(1));
        lemma_nonzeros_basic(l.skip(1));
    }
}

/// Compacting drops only empty cells, so the total value is kept.
pub proof fn lemma_sum_nonzeros(l: Seq<u32>)
    ensures
        line_sum(nonzeros(l)) == line_sum(l),
    decreases l.len(),
{
    if l.len() == 0 {
    } else {
        lemma_sum_nonzeros(l.skip(1));
        if l[0] == 0 {
        } else {
            lemma_meas_app(seq![l[0]], nonzeros(l.skip(1)), sum_weight());
            lemma_meas_singleton(l[0], sum_weight());
        }
    }
}

pub proof fn lemma_merge_len(s: Seq<u32>)
    ensures
        merge_pairs(s).len() <= s.len(),
        merge_pairs(s).len() == s.len() ==> merge_pairs(s) == s,
    decreases s.len(),
{
    if s.len() >= 2 && s[0] == s[1] {
        lemma_merge_len(s.skip(2));
    } else if s.len() >= 1 {
        lemma_merge_len(s.skip(1));
        if merge_pairs(s).len() == s.len() {
            assert(merge_pairs(s.skip(1)).len() == s.skip(1).len());
            assert(merge_pairs(s) =~= s);
        }
    }
}

/// Every merged entry is a value of the scanned line, or the double of
/// one: no tile is doubled more than once by a single scan.
pub proof fn lemma_merge_origin(s: Seq<u32>)
    ensures
        forall|k: int|
            0 <= k < merge_pairs(s).len() ==> appears(s, #[trigger] merge_pairs(s)[k]) || (
            exists|w: u32| appears(s, w) && merge_pairs(s)[k] == dbl(w)),
    decreases s.len(),
{
    if s.len() >= 2 && s[0] == s[1] {
        lemma_merge_origin(s.skip(2));
        assert forall|k: int| 0 <= k < merge_pairs(s).len() implies appears(
            s,
            #[trigger] merge_pairs(s)[k],
        ) || (exists|w: u32| appears(s, w) && merge_pairs(s)[k] == dbl(w)) by {
            if k == 0 {
                assert(merge_pairs(s)[0] == dbl(s[0]));
                assert(appears(s, s[0]) && merge_pairs(s)[0] == dbl(s[0]));
            } else {
                let v = merge_pairs(s)[k];
                assert(merge_pairs(s.skip(2))[k - 1] == v);
                if appears(s.skip(2), v) {
                    lemma_appears_skip(s, 2, v);
                } else {
                    let w = choose|w: u32|
                        appears(s.skip(2), w) && merge_pairs(s.skip(2))[k - 1] == dbl(w);
                    lemma_appears_skip(s, 2, w);
                    assert(appears(s, w) && merge_pairs(s)[k] == dbl(w));
                }
            }
        }
    } else if s.len() >= 1 {
        lemma_merge_origin(s.skip(1));
        assert forall|k: int| 0 <= k < merge_pairs(s).len() implies appears(
            s,
            #[trigger] merge_pairs(s)[k],
        ) || (exists|w: u32| appears(s, w) && merge_pairs(s)[k] == dbl(w)) by {
            if k == 0 {
                assert(merge_pairs(s)[0] == s[0]);
                assert(appears(s, s[0]));
            } else {
                let v = merge_pairs(s)[k];
                assert(merge_pairs(s.skip(1))[k - 1] == v);
                if appears(s.skip(1), v) {
                    lemma_appears_skip(s, 1, v);
                } else {
                    let w = choose|w: u32|
                        appears(s.skip(1), w) && merge_pairs(s.skip(1))[k - 1] == dbl(w);
                    lemma_appears_skip(s, 1, w);
                    assert(appears(s, w) && merge_pairs(s)[k] == dbl(w));
                }
            }
        }
    }
}

proof fn lemma_appears_skip(s: Seq<u32>, n: int, v: u32)
    requires
        0 <= n <= s.len(),
        appears(s.skip(n), v),
    ensures
        appears(s, v),
{
    let j = choose|j: int| 0 <= j < s.skip(n).len() && s.skip(n)[j] == v;
    assert(s[j + n] == v);
}

/// Merging a line of bounded tiles yields tiles again: no entry is zero.
pub proof fn lemma_merge_tiles(s: Seq<u32>)
    requires
        forall|k: int| 0 <= k < s.len() ==> 1 <= #[trigger] s[k] <= CELL_BOUND,
    ensures
        forall|k: int| 0 <= k < merge_pairs(s).len() ==> 1 <= #[trigger] merge_pairs(s)[k],
{
    lemma_merge_origin(s);
    assert forall|k: int| 0 <= k < merge_pairs(s).len() implies 1 <= #[trigger] merge_pairs(
        s,
    )[k] by {
        let v = merge_pairs(s)[k];
        if appears(s, v) {
            let j = choose|j: int| 0 <= j < s.len() && s[j] == v;
        } else {
            let w = choose|w: u32| appears(s, w) && v == dbl(w);
            let j = choose|j: int| 0 <= j < s.len() && s[j] == w;
            assert(1 <= w <= CELL_BOUND);
            assert(dbl(w) == w + w);
        }
    }
}

/// Merging keeps the total value of the line.
pub proof fn lemma_merge_sum(s: Seq<u32>)
    requires
        line_bounded(s),
    ensures
        line_sum(merge_pairs(s)) == line_sum(s),
    decreases s.len(),
{
    if s.len() >= 2 && s[0] == s[1] {
        assert(s.skip(2) =~= s.skip(1).skip(1));
        lemma_merge_sum(s.skip(2));
        lemma_meas_app(seq![dbl(s[0])], merge_pairs(s.skip(2)), sum_weight());
        lemma_meas_singleton(dbl(s[0]), sum_weight());
        assert(dbl(s[0]) == s[0] + s[1]);
        assert(s.skip(1)[0] == s[1]);
        assert(line_meas(s.skip(1), sum_weight()) == s[1] + line_meas(
            s.skip(1).skip(1),
            sum_weight(),
        ));
        assert(line_sum(s) == s[0] + (s[1] + line_sum(s.skip(2))));
    } else if s.len() >= 1 {
        lemma_merge_sum(s.skip(1));
        lemma_meas_app(seq![s[0]], merge_pairs(s.skip(1)), sum_weight());
        lemma_meas_singleton(s[0], sum_weight());
    }
}

/// A line with no equal adjacent tiles is left unchanged by a merge scan.
pub proof fn lemma_merge_stable(s: Seq<u32>)
    requires
        forall|k: int| 0 <= k < s.len() - 1 ==> #[trigger] s[k] != s[k + 1],
    ensures
        merge_pairs(s) == s,
    decreases s.len(),
{
    if s.len() == 0 {
        assert(merge_pairs(s) =~= s);
    } else {
        assert(forall|k: int| 0 <= k < s.skip(1).len() - 1 ==> #[trigger] s.skip(1)[k] != s.skip(1)[k + 1]);
        lemma_merge_stable(s.skip(1));
        assert(merge_pairs(s) =~= s);
    }
}

/// An adjacent equal pair makes the merge scan shorten the line.
pub proof fn lemma_merge_shrinks(s: Seq<u32>, k: int)
    requires
        0 <= k,
        k + 1 < s.len(),
        s[k] == s[k + 1],
    ensures
        merge_pairs(s).len() < s.len(),
    decreases s.len(),
{
    if s.len() >= 2 && s[0] == s[1] {
        lemma_merge_len(s.skip(2));
    } else {
        if k == 0 {
            assert(false);
        } else {
            assert(s.skip(1)[k - 1] == s[k]);
            assert(s.skip(1)[k] == s[k + 1]);
            lemma_merge_shrinks(s.skip(1), k - 1);
        }
    }
}

/// The post-slide line: its length, its kept total value, its zero count,
/// and its structure — merged tiles first, then only empty cells.
pub proof fn lemma_slide_basic(l: Seq<u32>)
    requires
        line_bounded(l),
    ensures
        slide_line_spec(l).len() == l.len(),
        merged_line(l).len() <= nonzeros(l).len() <= l.len(),
        line_sum(slide_line_spec(l)) == line_sum(l),
        line_zeros(slide_line_spec(l)) == line_zeros(l) + (nonzeros(l).len() - merged_line(
            l,
        ).len()),
        nonzeros(slide_line_spec(l)) == merged_line(l),
        forall|k: int|
            0 <= k < merged_line(l).len() ==> 1 <= #[trigger] slide_line_spec(l)[k]
                && slide_line_spec(l)[k] == merged_line(l)[k],
        forall|k: int| merged_line(l).len() <= k < l.len() ==> slide_line_spec(l)[k] == 0,
{
    let nz = nonzeros(l);
    let m = merged_line(l);
    lemma_nonzeros_basic(l);
    lemma_merge_len(nz);
    assert(forall|k: int| 0 <= k < nz.len() ==> 1 <= #[trigger] nz[k] <= CELL_BOUND);
    lemma_merge_tiles(nz);
    let pad = (l.len() - m.len()) as nat;
    lemma_zero_run(pad);
    lemma_meas_app(m, zero_run(pad), sum_weight());
    lemma_meas_app(m, zero_run(pad), zero_weight());
    lemma_merge_sum(nz);
    lemma_sum_nonzeros(l);
    lemma_zeros_nonzeros(l);
    lemma_zeros_nonzeros(m);
    assert(forall|k: int| 0 <= k < m.len() ==> 1 <= #[trigger] m[k]);
    assert(nonzeros(m).len() == m.len()) by {
        assert(line_zeros(m) == 0) by {
            lemma_all_tiles_no_zeros(m);
        }
    }
    lemma_nonzeros_full(m);
    lemma_nonzeros_app(m, zero_run(pad));
    assert(nonzeros(slide_line_spec(l)) =~= m);
}

/// A line of nonzero cells has a zero count of zero.
pub proof fn lemma_all_tiles_no_zeros(l: Seq<u32>)
    requires
        forall|k: int| 0 <= k < l.len() ==> 1 <= #[trigger] l[k],
    ensures
        line_zeros(l) == 0,
    decreases l.len(),
{
    if l.len() > 0 {
        lemma_all_tiles_no_zeros(l.skip(1));
    }
}

/// A full line with no adjacent equal tiles does not move.
pub proof fn lemma_slide_noop(l: Seq<u32>)
    requires
        line_bounded(l),
        forall|k: int| 0 <= k < l.len() ==> l[k] != 0,
        forall|k: int| 0 <= k < l.len() - 1 ==> #[trigger] l[k] != l[k + 1],
    ensures
        slide_line_spec(l) == l,
{
    lemma_nonzeros_all_nonzero(l);
    lemma_merge_stable(l);
    lemma_zero_run(0);
    assert(slide_line_spec(l) =~= l);
}

/// A line fixed by the slide is a run of tiles followed by empty cells.
pub proof fn lemma_slide_fixed_structure(l: Seq<u32>)
    requires
        line_bounded(l),
        slide_line_spec(l) == l,
    ensures
        forall|k: int| 0 <= k < merged_line(l).len() ==> l[k] != 0,
        forall|k: int| merged_line(l).len() <= k < l.len() ==> l[k] == 0,
{
    lemma_slide_basic(l);
}

/// A slide that changes nothing else leaves an empty cell visible, so a
/// changed line always shows one.
pub proof fn lemma_slide_changed_zero(l: Seq<u32>)
    requires
        line_bounded(l),
        slide_line_spec(l) != l,
    ensures
        exists|k: int| 0 <= k < slide_line_spec(l).len() && slide_line_spec(l)[k] == 0,
{
    lemma_slide_basic(l);
    let m = merged_line(l);
    if m.len() < l.len() {
        assert(slide_line_spec(l)[l.len() - 1] == 0);
    } else {
        assert(nonzeros(l).len() == l.len());
        lemma_nonzeros_full(l);
        lemma_merge_len(nonzeros(l));
        assert(merge_pairs(nonzeros(l)) == nonzeros(l));
        lemma_zero_run(0);
        assert(slide_line_spec(l) =~= l);
        assert(false);
    }
}

/// An adjacent equal pair of tiles guarantees that the slide changes the line.
pub proof fn lemma_slide_merges(l: Seq<u32>, k: int)
    requires
        line_bounded(l),
        0 <= k,
        k + 1 < l.len(),
        l[k] != 0,
        l[k] == l[k + 1],
    ensures
        slide_line_spec(l) != l,
{
    let u = l.take(k);
    let w = l.skip(k + 2);
    let pair = seq![l[k], l[k + 1]];
    assert(l =~= u + pair + w);
    lemma_nonzeros_app(u + pair, w);
    lemma_nonzeros_app(u, pair);
    lemma_nonzeros_all_nonzero(pair);
    let j = nonzeros(u).len() as int;
    lemma_nonzeros_basic(u);
    assert(nonzeros(l)[j] == l[k]) by {
        assert(nonzeros(l) == (nonzeros(u) + pair) + nonzeros(w));
        assert((nonzeros(u) + pair)[j] == l[k]);
    }
    assert(nonzeros(l)[j + 1] == l[k + 1]) by {
        assert(nonzeros(l) == (nonzeros(u) + pair) + nonzeros(w));
        assert((nonzeros(u) + pair)[j + 1] == l[k + 1]);
    }
    lemma_merge_shrinks(nonzeros(l), j);
    lemma_slide_basic(l);
    if slide_line_spec(l) == l {
        assert(nonzeros(slide_line_spec(l)) == nonzeros(l));
        assert(merged_line(l).len() < nonzeros(l).len());
        assert(false);
    }
}

/// A line that neither slides forward nor backward is all tiles or all
/// empty cells.
pub proof fn lemma_line_unmixed(l: Seq<u32>)
    requires
        line_bounded(l),
        slide_line_spec(l) == l,
        slide_line_spec(l.reverse()) == l.reverse(),
    ensures
        (forall|k: int| 0 <= k < l.len() ==> l[k] == 0) || (forall|k: int|
            0 <= k < l.len() ==> l[k] != 0),
{
    lemma_slide_fixed_structure(l);
    assert(line_bounded(l.reverse())) by {
        assert(forall|k: int|
            0 <= k < l.reverse().len() ==> #[trigger] l.reverse()[k] == l[l.len() - 1 - k]);
    }
    lemma_slide_fixed_structure(l.reverse());
    let p1 = merged_line(l).len();
    let p2 = merged_line(l.reverse()).len();
    if exists|a: int| 0 <= a < l.len() && l[a] == 0 {
        let a = choose|a: int| 0 <= a < l.len() && l[a] == 0;
        assert forall|b: int| 0 <= b < l.len() implies l[b] == 0 by {
            if l[b] != 0 {
                assert(a >= p1);
                assert(b < p1);
                assert(l.reverse()[l.len() - 1 - a] == 0);
                assert(l.reverse()[l.len() - 1 - b] != 0);
                assert(l.len() - 1 - a >= p2);
                assert(l.len() - 1 - b < p2);
                assert(false);
            }
        }
    } else {
        assert(forall|k: int| 0 <= k < l.len() ==> l[k] != 0);
    }
}

/// Slide one line: compact the tiles toward the front, merge each adjacent
/// equal pair once, and pad the back with empty cells.
pub fn slide_line(line: &Vec<u32>) -> (r: Vec<u32>)
    requires
        line_bounded(line@),
    ensures
        r@ == slide_line_spec(line@),
        r@.len() == line@.len(),
{
    let n = line.len();
    let mut compact: Vec<u32> = Vec::new();
    let mut i: usize = 0;
    while i < n
        invariant
            n == line@.len(),
            line_bounded(line@),
            i <= n,
            compact@ == nonzeros(line@.take(i as int)),
            forall|k: int| 0 <= k < compact@.len() ==> 1 <= #[trigger] compact@[k] <= CELL_BOUND,
        decreases n - i,
    {
        let v = line[i];
        proof {
            assert(line@.take(i + 1 as int) =~= line@.take(i as int) + seq![line@[i as int]]);
            lemma_nonzeros_app(line@.take(i as int), seq![line@[i as int]]);
            assert(seq![v].len() == 1 && seq![v][0] == v);
            assert(seq![v].skip(1) =~= Seq::<u32>::empty());
            assert(nonzeros(Seq::<u32>::empty()) == Seq::<u32>::empty());
            if v != 0 {
                assert(nonzeros(seq![v]) == seq![v] + nonzeros(seq![v].skip(1)));
                assert(nonzeros(seq![v]) =~= seq![v]);
            } else {
                assert(nonzeros(seq![v]) == nonzeros(seq![v].skip(1)));
                assert(nonzeros(seq![v]) =~= Seq::<u32>::empty());
                assert(nonzeros(line@.take(i + 1 as int)) =~= nonzeros(line@.take(i as int)));
            }
        }
        if v != 0 {
            compact.push(v);
        }
        i += 1;
    }
    proof {
        assert(line@.take(n as int) =~= line@);
    }
    let mut out: Vec<u32> = Vec::new();
    let mut k: usize = 0;
    proof {
        assert(compact@.skip(0) =~= compact@);
        assert(Seq::<u32>::empty() + merge_pairs(compact@) =~= merge_pairs(compact@));
    }
    while k < compact.len()
        invariant
            k <= compact@.len(),
            forall|j: int| 0 <= j < compact@.len() ==> 1 <= #[trigger] compact@[j] <= CELL_BOUND,
            merge_pairs(compact@) == out@ + merge_pairs(compact@.skip(k as int)),
            out@.len() <= k,
        decreases compact@.len() - k,
    {
        let ghost rest = compact@.skip(k as int);
        proof {
            assert(rest[0] == compact@[k as int]);
            if k + 1 < compact@.len() {
                assert(rest[1] == compact@[k + 1 as int]);
            }
        }
        if k + 1 < compact.len() && compact[k] == compact[k + 1] {
            out.push(compact[k] + compact[k + 1]);
            proof {
                assert(rest.skip(2) =~= compact@.skip(k + 2 as int));
                assert(merge_pairs(rest) == seq![dbl(rest[0])] + merge_pairs(rest.skip(2)));
                assert(out@ + merge_pairs(compact@.skip(k + 2 as int)) =~= (out@.drop_last()
                    + seq![dbl(rest[0])]) + merge_pairs(rest.skip(2)));
            }
            k += 2;
        } else {
            out.push(compact[k]);
            proof {
                assert(rest.skip(1) =~= compact@.skip(k + 1 as int));
                if rest.len() >= 2 && rest[0] == rest[1] {
                    assert(false);
                }
                assert(merge_pairs(rest) == seq![rest[0]] + merge_pairs(rest.skip(1)));
                assert(out@ + merge_pairs(compact@.skip(k + 1 as int)) =~= (out@.drop_last()
                    + seq![rest[0]]) + merge_pairs(rest.skip(1)));
            }
            k += 1;
        }
    }
    proof {
        assert(compact@.skip(k as int) =~= Seq::<u32>::empty());
        assert(merge_pairs(Seq::<u32>::empty()) =~= Seq::<u32>::empty());
        assert(out@ =~= merge_pairs(compact@));
        lemma_merge_len(compact@);
        lemma_nonzeros_basic(line@);
    }
    while out.len() < n
        invariant
            out@.len() <= n,
            merged_line(line@).len() <= n,
            out@ =~= merged_line(line@) + zero_run((out@.len() - merged_line(line@).len()) as nat),
        decreases n - out@.len(),
    {
        out.push(0);
        proof {
            let m = merged_line(line@);
            assert(zero_run((out@.len() - m.len()) as nat) =~= zero_run(
                (out@.len() - 1 - m.len()) as nat,
            ).push(0u32));
            assert(out@ =~= m + zero_run((out@.len() - m.len()) as nat));
        }
    }
    proof {
        assert(out@ =~= slide_line_spec(line@));
    }
    out
}

/// The slide keeps the length of the line.
pub proof fn lemma_slide_len(l: Seq<u32>)
    ensures
        slide_line_spec(l).len() == l.len(),
        merged_line(l).len() <= l.len(),
{
    lemma_nonzeros_basic(l);
    lemma_merge_len(nonzeros(l));
}

/// Sliding an already-slid line without an adjacent equal pair of tiles
/// changes nothing further.
pub proof fn lemma_slide_of_slide(l: Seq<u32>)
    requires
        line_bounded(l),
        forall|k: int|
            0 <= k < slide_line_spec(l).len() - 1 ==> !((#[trigger] slide_line_spec(l)[k]) != 0
                && slide_line_spec(l)[k] == slide_line_spec(l)[k + 1]),
    ensures
        slide_line_spec(slide_line_spec(l)) == slide_line_spec(l),
{
    let s = slide_line_spec(l);
    let m = merged_line(l);
    lemma_slide_basic(l);
    assert forall|k: int| 0 <= k < m.len() - 1 implies #[trigger] m[k] != m[k + 1] by {
        assert(s[k] == m[k] && s[k + 1] == m[k + 1]);
        assert(s[k] != 0);
    }
    lemma_merge_stable(m);
    assert(merged_line(s) == m);
    assert(slide_line_spec(s) =~= s);
}

} // verus!
