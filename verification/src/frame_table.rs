//! Frame-table assembly and frame selection.
//!
//! For every driver of the abbreviation table whose identifier has a series
//! in the dataset, the assembler extracts the half-open sample window
//! `[start, end)` and appends one row per sample to a long-format table:
//! the positional sample, the driver code, and the *local* frame index
//! `0, 1, ..., end - start - 1`, restarting at zero for every driver's
//! block.  The frame list for the animation is the ascending sequence of
//! distinct frame values divisible by `FRAME_STEP`.

use vstd::prelude::*;
use crate::tables::{assoc_get, AbbrevTable, Dataset};

verus! {

/// Only every `FRAME_STEP`-th local frame becomes an animation keyframe.
pub const FRAME_STEP: i32 = 10;

/// Long-format table of (position, driver code, local frame) rows, stored
/// as three columns of equal length.
pub struct FrameTable<T> {
    pub pos: Vec<T>,
    pub driver: Vec<String>,
    pub frame: Vec<i32>,
}

impl<T> FrameTable<T> {
    /// The columns agree in length and frame values are local offsets.
    pub open spec fn wf(self) -> bool {
        &&& self.driver@.len() == self.pos@.len()
        &&& self.frame@.len() == self.pos@.len()
        &&& forall|i: int| 0 <= i < self.frame@.len() ==> self.frame@[i] >= 0
    }

    /// Number of rows.
    pub open spec fn spec_len(self) -> int {
        self.pos@.len() as int
    }

    pub fn len(&self) -> (n: usize)
        ensures
            n == self.spec_len(),
    {
        self.pos.len()
    }
}

/// Number of abbreviation-table entries whose driver has a series in the
/// dataset; only those contribute a block of rows.
pub open spec fn count_present<T>(
    abv: Seq<(Seq<char>, Seq<char>)>,
    data: Seq<(Seq<char>, Seq<T>)>,
) -> int
    decreases abv.len(),
{
    if abv.len() == 0 {
        0
    } else {
        count_present(abv.drop_last(), data) + if assoc_get(data, abv.last().1) is Some {
            1int
        } else {
            0int
        }
    }
}

/// Position column: the window `[start, end)` of each present driver's
/// series, blocks concatenated in abbreviation-table order.
pub open spec fn spec_pos_col<T>(
    abv: Seq<(Seq<char>, Seq<char>)>,
    data: Seq<(Seq<char>, Seq<T>)>,
    start: int,
    end: int,
) -> Seq<T>
    decreases abv.len(),
{
    if abv.len() == 0 {
        Seq::empty()
    } else {
        let rest = spec_pos_col(abv.drop_last(), data, start, end);
        match assoc_get(data, abv.last().1) {
            Some(series) => rest + series.subrange(start, end),
            None => rest,
        }
    }
}

/// Driver column: each present driver's code, repeated over its block.
pub open spec fn spec_driver_col<T>(
    abv: Seq<(Seq<char>, Seq<char>)>,
    data: Seq<(Seq<char>, Seq<T>)>,
    len: int,
) -> Seq<Seq<char>>
    decreases abv.len(),
{
    if abv.len() == 0 {
        Seq::empty()
    } else {
        let rest = spec_driver_col(abv.drop_last(), data, len);
        if assoc_get(data, abv.last().1) is Some {
            rest + Seq::new(len as nat, |i: int| abv.last().0)
        } else {
            rest
        }
    }
}

/// Frame column: the local sequence `0, 1, ..., len - 1`, restarting for
/// each present driver's block.
pub open spec fn spec_frame_col<T>(
    abv: Seq<(Seq<char>, Seq<char>)>,
    data: Seq<(Seq<char>, Seq<T>)>,
    len: int,
) -> Seq<i32>
    decreases abv.len(),
{
    if abv.len() == 0 {
        Seq::empty()
    } else {
        let rest = spec_frame_col(abv.drop_last(), data, len);
        if assoc_get(data, abv.last().1) is Some {
            rest + Seq::new(len as nat, |i: int| i as i32)
        } else {
            rest
        }
    }
}

/// The driver and frame columns hold one row per present driver and window
/// sample, so their length is `count_present * len`.
pub proof fn lemma_col_lens<T>(
    abv: Seq<(Seq<char>, Seq<char>)>,
    data: Seq<(Seq<char>, Seq<T>)>,
    len: int,
)
    requires
        0 <= len,
    ensures
        0 <= count_present(abv, data) <= abv.len(),
        spec_driver_col(abv, data, len).len() == count_present(abv, data) * len,
        spec_frame_col(abv, data, len).len() == count_present(abv, data) * len,
    decreases abv.len(),
{
    if abv.len() > 0 {
        lemma_col_lens(abv.drop_last(), data, len);
        let c = count_present(abv.drop_last(), data);
        assert((c + 1) * len == c * len + len) by (nonlinear_arith);
    }
}

/// The position column too holds one row per present driver and window
/// sample, provided every present series covers the window.
pub proof fn lemma_pos_col_len<T>(
    abv: Seq<(Seq<char>, Seq<char>)>,
    data: Seq<(Seq<char>, Seq<T>)>,
    start: int,
    end: int,
)
    requires
        0 <= start <= end,
        forall|i: int|
            0 <= i < abv.len() ==> match assoc_get(data, (#[trigger] abv[i]).1) {
                Some(series) => series.len() >= end,
                None => true,
            },
    ensures
        spec_pos_col(abv, data, start, end).len() == count_present(abv, data) * (end - start),
    decreases abv.len(),
{
    if abv.len() > 0 {
        assert(abv[abv.len() - 1] == abv.last());
        assert forall|i: int| 0 <= i < abv.drop_last().len() implies match assoc_get(
            data,
            (#[trigger] abv.drop_last()[i]).1,
        ) {
            Some(series) => series.len() >= end,
            None => true,
        } by {
            assert(abv.drop_last()[i] == abv[i]);
        }
        lemma_pos_col_len(abv.drop_last(), data, start, end);
        let c = count_present(abv.drop_last(), data);
        let len = end - start;
        assert((c + 1) * len == c * len + len) by (nonlinear_arith);
    }
}

/// Local frame restart law: within every present driver's block the frame
/// column is exactly `0, 1, ..., len - 1` in order, and every frame value
/// lies in `[0, len)`.
pub proof fn lemma_local_frame_restart<T>(
    abv: Seq<(Seq<char>, Seq<char>)>,
    data: Seq<(Seq<char>, Seq<T>)>,
    len: int,
)
    requires
        0 <= len <= i32::MAX,
    ensures
        spec_frame_col(abv, data, len).len() == count_present(abv, data) * len,
        forall|b: int, i: int|
            #![trigger spec_frame_col(abv, data, len)[b * len + i]]
            0 <= b < count_present(abv, data) && 0 <= i < len ==> spec_frame_col(abv, data, len)[b
                * len + i] == i as i32,
        forall|k: int|
            #![trigger spec_frame_col(abv, data, len)[k]]
            0 <= k < spec_frame_col(abv, data, len).len() ==> 0 <= spec_frame_col(abv, data, len)[k]
                < len,
    decreases abv.len(),
{
    lemma_col_lens(abv, data, len);
    if abv.len() > 0 {
        lemma_local_frame_restart(abv.drop_last(), data, len);
        lemma_col_lens(abv.drop_last(), data, len);
        let col = spec_frame_col(abv, data, len);
        let rest = spec_frame_col(abv.drop_last(), data, len);
        let c_rest = count_present(abv.drop_last(), data);
        if assoc_get(data, abv.last().1) is Some {
            assert forall|b: int, i: int|
                #![trigger col[b * len + i]]
                0 <= b < count_present(abv, data) && 0 <= i < len implies col[b * len + i]
                == i as i32 by {
                if b < c_rest {
                    assert(b * len + i < c_rest * len) by (nonlinear_arith)
                        requires
                            0 <= i < len,
                            0 <= b < c_rest,
                    ;
                    assert(0 <= b * len + i) by (nonlinear_arith)
                        requires
                            0 <= i,
                            0 <= b,
                            0 <= len,
                    ;
                    assert(col[b * len + i] == rest[b * len + i]);
                } else {
                    assert(b == c_rest);
                    assert(col[c_rest * len + i] == i as i32);
                }
            }
            assert forall|k: int|
                #![trigger col[k]]
                0 <= k < col.len() implies 0 <= col[k] < len by {
                if k < rest.len() {
                    assert(col[k] == rest[k]);
                } else {
                    assert(col[k] == (k - rest.len()) as i32);
                }
            }
        }
    }
}

/// Assembles the frame table: for each driver of `abv`, in order, whose
/// identifier has a series in `data`, appends the window `[start, end)` of
/// that series, the driver's code, and the local frame sequence.  Drivers
/// absent from the dataset contribute no rows.
pub fn build_frame_dataframe<T: Copy>(
    data: &Dataset<T>,
    abv: &AbbrevTable,
    start: usize,
    end: usize,
) -> (t: FrameTable<T>)
    requires
        start < end,
        end - start <= i32::MAX,
        forall|i: int|
            0 <= i < abv@.len() ==> match assoc_get(data@, (#[trigger] abv@[i]).1) {
                Some(series) => series.len() >= end,
                None => true,
            },
    ensures
        t.wf(),
        t.pos@ == spec_pos_col(abv@, data@, start as int, end as int),
        t.driver.deep_view() == spec_driver_col(abv@, data@, end - start),
        t.frame@ == spec_frame_col(abv@, data@, end - start),
        t.spec_len() == count_present(abv@, data@) * (end - start),
{
    let mut pos: Vec<T> = Vec::new();
    let mut driver: Vec<String> = Vec::new();
    let mut frame: Vec<i32> = Vec::new();
    let mut di: usize = 0;
    proof {
        assert(abv@.take(0) =~= Seq::<(Seq<char>, Seq<char>)>::empty());
    }
    while di < abv.entries.len()
        invariant
            di <= abv@.len(),
            start < end,
            end - start <= i32::MAX,
            forall|i: int|
                0 <= i < abv@.len() ==> match assoc_get(data@, (#[trigger] abv@[i]).1) {
                    Some(series) => series.len() >= end,
                    None => true,
                },
            pos@ == spec_pos_col(abv@.take(di as int), data@, start as int, end as int),
            driver.deep_view() == spec_driver_col(abv@.take(di as int), data@, end - start),
            frame@ == spec_frame_col(abv@.take(di as int), data@, end - start),
            driver@.len() == pos@.len(),
            frame@.len() == pos@.len(),
            forall|x: int| 0 <= x < frame@.len() ==> frame@[x] >= 0,
        decreases abv@.len() - di,
    {
        let code = &abv.entries[di].0;
        let id = &abv.entries[di].1;
        proof {
            assert(abv@[di as int] == (code@, id@));
        }
        match data.get(id) {
            Some(series) => {
                let ghost pos0 = pos@;
                let ghost dv0 = driver.deep_view();
                let ghost fr0 = frame@;
                proof {
                    assert(series@.len() >= end);
                    assert(series@.subrange(start as int, start as int) =~= Seq::<T>::empty());
                    assert(Seq::new(0, |i: int| code@) =~= Seq::<Seq<char>>::empty());
                    assert(Seq::new(0, |i: int| i as i32) =~= Seq::<i32>::empty());
                    assert(pos@ =~= pos0 + series@.subrange(start as int, start as int));
                    assert(driver.deep_view() =~= dv0 + Seq::new(0, |i: int| code@));
                    assert(frame@ =~= fr0 + Seq::new(0, |i: int| i as i32));
                }
                let mut k: usize = start;
                while k < end
                    invariant
                        start <= k <= end,
                        end - start <= i32::MAX,
                        end <= series@.len(),
                        pos@ == pos0 + series@.subrange(start as int, k as int),
                        driver.deep_view() == dv0 + Seq::new((k - start) as nat, |i: int| code@),
                        frame@ == fr0 + Seq::new((k - start) as nat, |i: int| i as i32),
                        driver@.len() == pos@.len(),
                        frame@.len() == pos@.len(),
                        forall|x: int| 0 <= x < fr0.len() ==> fr0[x] >= 0,
                        forall|x: int| 0 <= x < frame@.len() ==> frame@[x] >= 0,
                    decreases end - k,
                {
                    let ghost dvk = driver.deep_view();
                    pos.push(series[k]);
                    driver.push(code.clone());
                    frame.push((k - start) as i32);
                    proof {
                        assert(series@.subrange(start as int, k as int + 1) =~= series@.subrange(
                            start as int,
                            k as int,
                        ).push(series@[k as int]));
                        assert(driver.deep_view() =~= dvk.push(code@));
                        assert(Seq::new((k + 1 - start) as nat, |i: int| code@) =~= Seq::new(
                            (k - start) as nat,
                            |i: int| code@,
                        ).push(code@));
                        assert(Seq::new((k + 1 - start) as nat, |i: int| i as i32) =~= Seq::new(
                            (k - start) as nat,
                            |i: int| i as i32,
                        ).push((k - start) as i32));
                    }
                    k += 1;
                }
                proof {
                    let prefix = abv@.take(di as int + 1);
                    assert(prefix.drop_last() =~= abv@.take(di as int));
                    assert(prefix.last() == abv@[di as int]);
                    assert(pos@ =~= spec_pos_col(prefix, data@, start as int, end as int));
                    assert(Seq::new((end - start) as nat, |i: int| prefix.last().0) =~= Seq::new(
                        (end - start) as nat,
                        |i: int| code@,
                    ));
                    assert(driver.deep_view() =~= spec_driver_col(prefix, data@, end - start));
                    assert(frame@ =~= spec_frame_col(prefix, data@, end - start));
                }
            },
            None => {
                proof {
                    let prefix = abv@.take(di as int + 1);
                    assert(prefix.drop_last() =~= abv@.take(di as int));
                    assert(prefix.last() == abv@[di as int]);
                    assert(pos@ =~= spec_pos_col(prefix, data@, start as int, end as int));
                    assert(driver.deep_view() =~= spec_driver_col(prefix, data@, end - start));
                    assert(frame@ =~= spec_frame_col(prefix, data@, end - start));
                }
            },
        }
        di += 1;
    }
    proof {
        assert(abv@.take(abv@.len() as int) =~= abv@);
        lemma_pos_col_len(abv@, data@, start as int, end as int);
    }
    FrameTable { pos, driver, frame }
}

/// Inserts `v` into the strictly ascending vector `r`, keeping it strictly
/// ascending; a value already present is left alone.
fn insert_sorted(r: &mut Vec<i32>, v: i32)
    requires
        forall|p: int, q: int| 0 <= p < q < old(r)@.len() ==> old(r)@[p] < old(r)@[q],
    ensures
        forall|p: int, q: int| 0 <= p < q < final(r)@.len() ==> final(r)@[p] < final(r)@[q],
        forall|x: i32| final(r)@.contains(x) <==> old(r)@.contains(x) || x == v,
{
    let mut i: usize = 0;
    while i < r.len() && r[i] < v
        invariant
            i <= r@.len(),
            r@ == old(r)@,
            forall|j: int| 0 <= j < i ==> r@[j] < v,
        decreases r@.len() - i,
    {
        i += 1;
    }
    if i < r.len() && r[i] == v {
        proof {
            assert(old(r)@[i as int] == v);
            assert(old(r)@.contains(v));
            assert forall|x: i32| final(r)@.contains(x) <==> old(r)@.contains(x) || x == v by {}
        }
        return ;
    }
    proof {
        assert(i < r@.len() ==> r@[i as int] > v);
    }
    r.insert(i, v);
    proof {
        let s0 = old(r)@;
        let s1 = r@;
        assert(s1 =~= s0.take(i as int) + seq![v] + s0.skip(i as int));
        assert forall|p: int, q: int| 0 <= p < q < s1.len() implies s1[p] < s1[q] by {
            assert(forall|j: int|
                0 <= j < s1.len() ==> s1[j] == if j < i {
                    s0[j]
                } else if j == i {
                    v
                } else {
                    s0[j - 1]
                });
            assert(forall|j: int| i <= j < s0.len() ==> s0[i as int] <= s0[j]);
        }
        assert forall|x: i32| s1.contains(x) <==> s0.contains(x) || x == v by {
            if s1.contains(x) {
                let j = choose|j: int| 0 <= j < s1.len() && s1[j] == x;
                if j < i {
                    assert(s0[j] == x);
                } else if j > i {
                    assert(s0[j - 1] == x);
                }
            }
            if s0.contains(x) {
                let j = choose|j: int| 0 <= j < s0.len() && s0[j] == x;
                if j < i {
                    assert(s1[j] == x);
                } else {
                    assert(s1[j + 1] == x);
                }
            }
            if x == v {
                assert(s1[i as int] == x);
            }
        }
    }
}

/// Derives the animation frame list: the distinct values of the frame
/// column that are divisible by `FRAME_STEP`, in ascending order.
pub fn get_frame_values<T>(t: &FrameTable<T>) -> (r: Vec<i32>)
    requires
        t.wf(),
    ensures
        forall|p: int, q: int| 0 <= p < q < r@.len() ==> r@[p] < r@[q],
        forall|x: i32|
            r@.contains(x) <==> t.frame@.contains(x) && x as int % (FRAME_STEP as int) == 0,
{
    let mut r: Vec<i32> = Vec::new();
    let mut idx: usize = 0;
    while idx < t.frame.len()
        invariant
            idx <= t.frame@.len(),
            t.wf(),
            forall|p: int, q: int| 0 <= p < q < r@.len() ==> r@[p] < r@[q],
            forall|x: i32|
                r@.contains(x) <==> t.frame@.take(idx as int).contains(x) && x as int % (
                FRAME_STEP as int) == 0,
        decreases t.frame@.len() - idx,
    {
        let v = t.frame[idx];
        let ghost pre = r@;
        proof {
            assert(t.frame@[idx as int] >= 0);
        }
        let divisible = v % FRAME_STEP == 0;
        if divisible {
            insert_sorted(&mut r, v);
        }
        proof {
            let taken = t.frame@.take(idx as int);
            let taken1 = t.frame@.take(idx as int + 1);
            assert(taken1 =~= taken.push(v));
            assert(taken1[taken.len() as int] == v);
            assert(divisible == (v as int % (FRAME_STEP as int) == 0));
            assert forall|x: i32| r@.contains(x) implies taken1.contains(x) && x as int % (
            FRAME_STEP as int) == 0 by {
                if pre.contains(x) {
                    let j = choose|j: int| 0 <= j < taken.len() && taken[j] == x;
                    assert(taken1[j] == x);
                } else {
                    assert(x == v);
                }
            }
            assert forall|x: i32| taken1.contains(x) && x as int % (FRAME_STEP as int)
                == 0 implies r@.contains(x) by {
                let j = choose|j: int| 0 <= j < taken1.len() && taken1[j] == x;
                if j < taken.len() {
                    assert(taken[j] == x);
                } else {
                    assert(x == v);
                }
            }
        }
        idx += 1;
    }
    proof {
        assert(t.frame@.take(t.frame@.len() as int) =~= t.frame@);
    }
    r
}

/// Rows of the table with the given frame value and driver code, in table
/// order, restricted to the first `n` rows.
pub open spec fn spec_rows_matching<T>(
    t: FrameTable<T>,
    n: int,
    frame: i32,
    code: Seq<char>,
) -> Seq<T>
    decreases n,
{
    if n <= 0 {
        Seq::empty()
    } else {
        let rest = spec_rows_matching(t, n - 1, frame, code);
        if t.frame@[n - 1] == frame && t.driver@[n - 1]@ == code {
            rest.push(t.pos@[n - 1])
        } else {
            rest
        }
    }
}

/// Positions of the rows whose frame value and driver code match, in table
/// order: one animation trace of one driver.
pub fn filter_rows<T: Copy>(t: &FrameTable<T>, frame: i32, code: &String) -> (r: Vec<T>)
    requires
        t.wf(),
    ensures
        r@ == spec_rows_matching(*t, t.spec_len(), frame, code@),
{
    let mut r: Vec<T> = Vec::new();
    let mut idx: usize = 0;
    while idx < t.pos.len()
        invariant
            idx <= t.pos@.len(),
            t.wf(),
            r@ == spec_rows_matching(*t, idx as int, frame, code@),
        decreases t.pos@.len() - idx,
    {
        if t.frame[idx] == frame && t.driver[idx] == *code {
            r.push(t.pos[idx]);
        }
        idx += 1;
    }
    r
}

/// Replaces the position column, leaving driver and frame columns alone:
/// the verified half of rotating the table into the track-aligned frame,
/// whose new coordinates the caller computes.
pub fn replace_positions<T>(t: &mut FrameTable<T>, new_pos: Vec<T>)
    requires
        new_pos@.len() == old(t).pos@.len(),
    ensures
        final(t).pos@ == new_pos@,
        final(t).driver == old(t).driver,
        final(t).frame == old(t).frame,
{
    t.pos = new_pos;
}

} // verus!
