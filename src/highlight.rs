//! Turning possibly overlapping rule hits into a minimal sequence of colored runs.
use vstd::prelude::*;

use crate::types::{RuleWithBorders, TextWithColor};

verus! {

/// Whether the hit `b` claims byte `i`.
pub open spec fn covers(b: RuleWithBorders, i: int) -> bool {
    b.start as int <= i && i < b.end as int
}

/// Index of the last hit in `bs` that claims byte `i`, or -1 when none does.
pub open spec fn last_cover(bs: Seq<RuleWithBorders>, i: int) -> int
    decreases bs.len(),
{
    if bs.len() == 0 {
        -1
    } else if covers(bs.last(), i) {
        bs.len() - 1
    } else {
        last_cover(bs.drop_last(), i)
    }
}

/// The color of byte `i`: that of the last hit claiming it, empty when unclaimed.
pub open spec fn color_at(bs: Seq<RuleWithBorders>, i: int) -> Seq<char> {
    let k = last_cover(bs, i);
    if k < 0 {
        Seq::empty()
    } else {
        bs[k].rule.color@
    }
}

/// The color of every byte of an `n`-byte payload.
pub open spec fn byte_colors(bs: Seq<RuleWithBorders>, n: nat) -> Seq<Seq<char>> {
    Seq::new(n, |i: int| color_at(bs, i))
}

/// The texts of the runs, concatenated in order.
pub open spec fn joined_text(segs: Seq<TextWithColor>) -> Seq<u8>
    decreases segs.len(),
{
    if segs.len() == 0 {
        Seq::empty()
    } else {
        joined_text(segs.drop_last()) + segs.last().text@
    }
}

/// The color of every byte covered by the runs, in order.
pub open spec fn painted(segs: Seq<TextWithColor>) -> Seq<Seq<char>>
    decreases segs.len(),
{
    if segs.len() == 0 {
        Seq::empty()
    } else {
        painted(segs.drop_last()) + Seq::new(
            segs.last().text@.len(),
            |j: int| segs.last().color@,
        )
    }
}

/// No run is empty.
pub open spec fn runs_nonempty(segs: Seq<TextWithColor>) -> bool {
    forall|k: int| 0 <= k < segs.len() ==> (#[trigger] segs[k]).text@.len() > 0
}

/// No two neighbouring runs share a color.
pub open spec fn runs_maximal(segs: Seq<TextWithColor>) -> bool {
    forall|k: int| 0 <= k < segs.len() - 1 ==> (#[trigger] segs[k]).color@ != segs[k + 1].color@
}

/// `segs` is the split of `payload` into maximal runs of equal color under `colors`.
pub open spec fn is_run_split(
    segs: Seq<TextWithColor>,
    payload: Seq<u8>,
    colors: Seq<Seq<char>>,
) -> bool {
    &&& joined_text(segs) == payload
    &&& painted(segs) == colors
    &&& runs_nonempty(segs)
    &&& runs_maximal(segs)
}

/// `x` brought into `[0, n]`.
pub open spec fn clamped(x: int, n: int) -> int {
    if x <= 0 {
        0
    } else if x >= n {
        n
    } else {
        x
    }
}

/// `segs` is the highlighting of `payload` under the hits `bs`: one uncolored
/// run when there is no hit, else the split into maximal runs of equal color.
pub open spec fn highlighted(payload: Seq<u8>, bs: Seq<RuleWithBorders>, segs: Seq<TextWithColor>) -> bool {
    if bs.len() == 0 {
        &&& segs.len() == 1
        &&& segs[0].text@ == payload
        &&& segs[0].color@ == Seq::<char>::empty()
    } else {
        is_run_split(segs, payload, byte_colors(bs, payload.len()))
    }
}

/// The position of `x` inside `[0, n]`: negative values give 0, values past `n` give `n`.
fn clamp_index(x: i64, n: usize) -> (r: usize)
    ensures
        r as int == clamped(x as int, n as int),
{
    if x <= 0 {
        0
    } else if x as u64 >= n as u64 {
        n
    } else {
        x as usize
    }
}

/// Splits `payload` into colored runs. Each byte takes the color of the last
/// hit in `rules_with_borders` that claims it (later hits win), unclaimed bytes
/// take the empty color, and neighbouring bytes of equal color share a run.
/// Without any hit the whole payload is one uncolored run.
pub fn build_texts_with_colors(
    payload: &[u8],
    rules_with_borders: &Vec<RuleWithBorders>,
) -> (r: Vec<TextWithColor>)
    ensures
        highlighted(payload@, rules_with_borders@, r@),
{
    let bs = rules_with_borders;
    let n = payload.len();
    if bs.len() == 0 {
        return vec![TextWithColor { text: vstd::slice::slice_to_vec(payload), color: String::new() }];
    }
    // owner[i] is one more than the index of the last hit claiming byte i, or 0.

    let mut owner: Vec<usize> = Vec::new();
    let mut i: usize = 0;
    while i < n
        invariant
            i <= n,
            owner@.len() == i,
            forall|j: int| 0 <= j < i ==> owner@[j] == 0,
        decreases n - i,
    {
        owner.push(0);
        i = i + 1;
    }
    let mut k: usize = 0;
    while k < bs.len()
        invariant
            k <= bs@.len(),
            n == payload@.len(),
            owner@.len() == n,
            forall|j: int|
                0 <= j < n ==> owner@[j] as int == last_cover(#[trigger] bs@.take(k as int), j)
                    + 1,
        decreases bs@.len() - k,
    {
        let b = &bs[k];
        let lo = clamp_index(b.start, n);
        let hi = clamp_index(b.end, n);
        let mut p: usize = lo;
        while p < hi
            invariant
                k < bs.len(),
                *b == bs@[k as int],
                lo <= n,
                hi <= n,
                lo <= p,
                owner@.len() == n,
                lo as int == clamped(b.start as int, n as int),
                hi as int == clamped(b.end as int, n as int),
                forall|j: int| lo <= j < p && j < hi ==> owner@[j] == k + 1,
                forall|j: int|
                    0 <= j < n && !(lo <= j < p && j < hi) ==> owner@[j] as int == last_cover(
                        bs@.take(k as int),
                        j,
                    ) + 1,
            decreases hi - p,
        {
            owner.set(p, k + 1);
            p = p + 1;
        }
        proof {
            let t = bs@.take(k as int + 1);
            assert(t.drop_last() =~= bs@.take(k as int));
            assert(t.last() == bs@[k as int]);
            assert forall|j: int| 0 <= j < n implies owner@[j] as int == last_cover(
                #[trigger] bs@.take(k as int + 1),
                j,
            ) + 1 by {
                assert(bs@.take(k as int + 1) == t);
                if covers(bs@[k as int], j) {
                    assert(lo <= j < hi);
                } else {
                    assert(!(lo <= j < p && j < hi));
                }
            }
        }
        k = k + 1;
    }
    proof {
        assert(bs@.take(bs@.len() as int) =~= bs@);
    }
    let ghost colors = byte_colors(bs@, n as nat);

    let mut res: Vec<TextWithColor> = Vec::new();
    let mut cur_text: Vec<u8> = Vec::new();
    let mut cur_color: String = String::new();
    let mut idx: usize = 0;
    while idx < n
        invariant
            idx <= n,
            n == payload@.len(),
            owner@.len() == n,
            colors == byte_colors(bs@, n as nat),
            forall|j: int| 0 <= j < n ==> owner@[j] as int == last_cover(bs@, j) + 1,
            joined_text(res@) + cur_text@ == payload@.take(idx as int),
            painted(res@) + Seq::new(cur_text@.len(), |j: int| cur_color@) == colors.take(
                idx as int,
            ),
            runs_nonempty(res@),
            runs_maximal(res@),
            res@.len() > 0 ==> res@.last().color@ != cur_color@,
            idx > 0 ==> cur_text@.len() > 0,
            idx == 0 ==> res@.len() == 0 && cur_text@.len() == 0,
        decreases n - idx,
    {
        let o = owner[idx];
        proof {
            assert(last_cover(bs@, idx as int) < bs@.len()) by {
                lemma_last_cover_bounds(bs@, idx as int);
            }
        }
        let color = if o == 0 {
            String::new()
        } else {
            bs[o - 1].rule.color.clone()
        };
        assert(color@ == colors[idx as int]);
        let ghost old_res = res@;
        let ghost old_text = cur_text@;
        let ghost old_color = cur_color@;
        if !(color == cur_color) {
            if cur_text.len() > 0 {
                res.push(TextWithColor { text: cur_text, color: cur_color });
                proof {
                    let seg = res@.last();
                    assert(res@.drop_last() =~= old_res);
                    assert(joined_text(res@) == joined_text(old_res) + old_text);
                    assert(painted(res@) == painted(old_res) + Seq::new(
                        old_text.len(),
                        |j: int| old_color,
                    ));
                    assert(Seq::new(old_text.len(), |j: int| seg.color@) =~= Seq::new(
                        old_text.len(),
                        |j: int| old_color,
                    ));
                }
            }
            cur_color = color;
            cur_text = Vec::new();
            proof {
                assert(joined_text(res@) =~= joined_text(res@) + cur_text@);
                assert(painted(res@) + Seq::new(cur_text@.len(), |j: int| cur_color@)
                    =~= painted(res@));
            }
        }
        let ghost mid_text = cur_text@;
        cur_text.push(payload[idx]);
        proof {
            assert(payload@.take(idx as int + 1) =~= payload@.take(idx as int).push(
                payload@[idx as int],
            ));
            assert(colors.take(idx as int + 1) =~= colors.take(idx as int).push(
                colors[idx as int],
            ));
            assert(Seq::new(cur_text@.len(), |j: int| cur_color@) =~= Seq::new(
                mid_text.len(),
                |j: int| cur_color@,
            ).push(cur_color@));
            assert(joined_text(res@) + cur_text@ =~= (joined_text(res@) + mid_text).push(
                payload@[idx as int],
            ));
        }
        idx = idx + 1;
    }
    if cur_text.len() > 0 {
        let ghost old_res = res@;
        let ghost old_text = cur_text@;
        let ghost old_color = cur_color@;
        res.push(TextWithColor { text: cur_text, color: cur_color });
        proof {
            let seg = res@.last();
            assert(res@.drop_last() =~= old_res);
            assert(Seq::new(old_text.len(), |j: int| seg.color@) =~= Seq::new(
                old_text.len(),
                |j: int| old_color,
            ));
        }
    }
    proof {
        assert(payload@.take(n as int) =~= payload@);
        assert(colors.take(n as int) =~= colors);
        assert(joined_text(res@) =~= joined_text(res@) + Seq::<u8>::empty());
        assert(painted(res@) =~= painted(res@) + Seq::<Seq<char>>::empty());
    }
    res
}

/// Losslessness: the texts of the runs, concatenated in order, are the payload.
pub proof fn lemma_highlight_lossless(payload: Seq<u8>, bs: Seq<RuleWithBorders>, segs: Seq<TextWithColor>)
    requires
        highlighted(payload, bs, segs),
    ensures
        joined_text(segs) == payload,
{
    if bs.len() == 0 {
        assert(segs.drop_last().len() == 0);
        assert(joined_text(segs.drop_last()) == Seq::<u8>::empty());
        assert(segs.last() == segs[0]);
        assert(joined_text(segs) =~= segs[0].text@);
    }
}

/// Minimality: no run is empty and no two neighbouring runs share a color,
/// unless both the payload and the hits are empty (then the one run is empty).
pub proof fn lemma_highlight_minimal(payload: Seq<u8>, bs: Seq<RuleWithBorders>, segs: Seq<TextWithColor>)
    requires
        highlighted(payload, bs, segs),
        payload.len() > 0 || bs.len() > 0,
    ensures
        runs_nonempty(segs),
        runs_maximal(segs),
{
}

/// Without any hit, the result is exactly one uncolored run holding the whole payload.
pub proof fn lemma_highlight_without_hits(payload: Seq<u8>, bs: Seq<RuleWithBorders>, segs: Seq<TextWithColor>)
    requires
        highlighted(payload, bs, segs),
        bs.len() == 0,
    ensures
        segs.len() == 1,
        segs[0].text@ == payload,
        segs[0].color@ == Seq::<char>::empty(),
{
}

/// Every run's color is the color of some byte it covers.
pub proof fn lemma_run_colors_painted(segs: Seq<TextWithColor>, k: int)
    requires
        runs_nonempty(segs),
        0 <= k < segs.len(),
    ensures
        exists|i: int| 0 <= i < painted(segs).len() && painted(segs)[i] == segs[k].color@,
    decreases segs.len(),
{
    let init = segs.drop_last();
    let last = segs.last();
    assert(last.text@.len() > 0);
    let base = painted(init).len() as int;
    if k == segs.len() - 1 {
        assert(painted(segs)[base] == segs[k].color@);
    } else {
        assert(runs_nonempty(init)) by {
            assert forall|j: int| 0 <= j < init.len() implies (#[trigger] init[j]).text@.len() > 0 by {
                assert(init[j] == segs[j]);
            }
        }
        lemma_run_colors_painted(init, k);
        let i = choose|i: int| 0 <= i < painted(init).len() && painted(init)[i] == init[k].color@;
        assert(painted(segs)[i] == painted(init)[i]);
    }
}

pub proof fn lemma_last_cover_bounds(bs: Seq<RuleWithBorders>, i: int)
    ensures
        -1 <= last_cover(bs, i) < bs.len(),
    decreases bs.len(),
{
    if bs.len() > 0 && !covers(bs.last(), i) {
        lemma_last_cover_bounds(bs.drop_last(), i);
    }
}

} // verus!
