//! How much redundancy to send, driven by the loss that the peer reports.

use vstd::prelude::*;

verus! {

/// Most parity shards of a group.
pub const MAX_PARITY: usize = 3;

/// Reports in a row above the present redundancy that raise it.
pub const RAISE_AFTER: u8 = 2;

/// Reports in a row below the present redundancy that lower it.
pub const LOWER_AFTER: u16 = 15;

/// The redundancy controller.
#[derive(Clone, Debug)]
pub struct Adaptive {
    /// Parity shards for a full group.
    pub parity: usize,
    /// Reports in a row that called for more.
    pub bad: u8,
    /// Reports in a row that called for less.
    pub good: u16,
    pub last_loss_ppm: u32,
    pub smoothed_loss_ppm: u32,
}

impl Default for Adaptive {
    /// A cold start sends no redundancy.
    fn default() -> (fresh: Self)
        ensures
            fresh == Adaptive::cold(),
    {
        Adaptive { parity: 0, bad: 0, good: 0, last_loss_ppm: 0, smoothed_loss_ppm: 0 }
    }
}

impl Adaptive {
    /// The controller before the first report.
    pub open spec fn cold() -> Adaptive {
        Adaptive { parity: 0, bad: 0, good: 0, last_loss_ppm: 0, smoothed_loss_ppm: 0 }
    }

    /// What every report keeps: the redundancy is in range and neither counter has
    /// reached its threshold.
    pub open spec fn wf(self) -> bool {
        &&& self.parity <= MAX_PARITY
        &&& self.bad < RAISE_AFTER
        &&& self.good < LOWER_AFTER
    }

    /// The redundancy that a loss in parts per million calls for.
    pub open spec fn target_model(loss: u32) -> usize {
        if loss < 10_000 {
            0
        } else if loss < 50_000 {
            1
        } else if loss < 100_000 {
            2
        } else {
            3
        }
    }

    /// The smoothed loss after a report: three parts old, one part new.
    pub open spec fn smoothed_model(self, loss: u32) -> u32 {
        ((3 * self.smoothed_loss_ppm + loss) / 4) as u32
    }

    /// What the smoothed loss calls for after a report.
    pub open spec fn target_after(self, loss: u32) -> usize {
        Self::target_model(self.smoothed_model(loss))
    }

    /// The controller after a report.
    pub open spec fn reported(self, loss: u32) -> Adaptive {
        let target = self.target_after(loss);
        let raise = target > self.parity && self.bad + 1 >= RAISE_AFTER;
        let lower = target < self.parity && self.good + 1 >= LOWER_AFTER;
        let calmed = if self.bad == 0 {
            0u8
        } else {
            (self.bad - 1) as u8
        };
        Adaptive {
            parity: if raise {
                if self.parity + 1 < MAX_PARITY {
                    (self.parity + 1) as usize
                } else {
                    MAX_PARITY
                }
            } else if lower {
                (self.parity - 1) as usize
            } else {
                self.parity
            },
            bad: if raise {
                0
            } else if target > self.parity {
                (self.bad + 1) as u8
            } else {
                calmed
            },
            good: if target < self.parity && !lower {
                (self.good + 1) as u16
            } else {
                0
            },
            last_loss_ppm: loss,
            smoothed_loss_ppm: self.smoothed_model(loss),
        }
    }

    /// The controller after all of `losses`, the first one first.
    pub open spec fn run(self, losses: Seq<u32>) -> Adaptive
        decreases losses.len(),
    {
        if losses.len() == 0 {
            self
        } else {
            self.run(losses.drop_last()).reported(losses.last())
        }
    }

    /// Whether report number `i` of `losses` called for less than was being sent.
    pub open spec fn calls_for_less(self, losses: Seq<u32>, i: int) -> bool {
        let before = self.run(losses.take(i));
        before.target_after(losses[i]) < before.parity
    }

    /// The redundancy that a loss in parts per million calls for.
    pub fn target(loss: u32) -> (target: usize)
        ensures
            target == Self::target_model(loss),
            target <= MAX_PARITY,
    {
        if loss <= 9_999 {
            0
        } else if loss <= 49_999 {
            1
        } else if loss <= 99_999 {
            2
        } else {
            3
        }
    }

    /// Takes a loss report.
    pub fn report(&mut self, loss: u32)
        requires
            old(self).bad < u8::MAX,
            old(self).good < u16::MAX,
        ensures
            *final(self) == old(self).reported(loss),
            old(self).wf() ==> final(self).wf(),
    {
        self.last_loss_ppm = loss;
        self.smoothed_loss_ppm = ((self.smoothed_loss_ppm as u64 * 3 + loss as u64) / 4) as u32;
        let target: usize = Self::target(self.smoothed_loss_ppm);
        if target > self.parity {
            self.bad = self.bad + 1;
            self.good = 0;
            if self.bad >= RAISE_AFTER {
                self.parity = if self.parity + 1 < MAX_PARITY {
                    self.parity + 1
                } else {
                    MAX_PARITY
                };
                self.bad = 0;
            }
        } else if target < self.parity {
            self.good = self.good + 1;
            self.bad = self.bad.saturating_sub(1);
            if self.good >= LOWER_AFTER {
                self.parity = self.parity - 1;
                self.good = 0;
            }
        } else {
            self.bad = self.bad.saturating_sub(1);
            self.good = 0;
        }
    }
}

/// The redundancy stays in range whatever is reported, and moves by at most one
/// shard per report.
pub proof fn law_parity_stays_in_range(a: Adaptive, losses: Seq<u32>)
    requires
        a.wf(),
    ensures
        a.run(losses).wf(),
        losses.len() > 0 ==> {
            let before = a.run(losses.drop_last()).parity;
            let after = a.run(losses).parity;
            before <= after + 1 && after <= before + 1
        },
    decreases losses.len(),
{
    if losses.len() > 0 {
        law_parity_stays_in_range(a, losses.drop_last());
    }
}

/// One report never raises the redundancy by itself: the report before it called
/// for more as well.
pub proof fn law_raise_takes_two_reports(a: Adaptive, first: u32, second: u32)
    requires
        a.wf(),
        a.reported(first).reported(second).parity > a.reported(first).parity,
    ensures
        a.target_after(first) > a.parity,
        a.reported(first).parity == a.parity,
        a.reported(first).target_after(second) > a.parity,
{
}

/// The redundancy is lowered only by a report that ends an unbroken row of reports
/// which all called for less.
pub proof fn law_lowering_takes_a_row_of_reports(a: Adaptive, losses: Seq<u32>)
    requires
        a.wf(),
        a.good == 0,
        losses.len() > 0,
        a.run(losses).parity < a.run(losses.drop_last()).parity,
    ensures
        losses.len() >= LOWER_AFTER,
        forall|i: int|
            losses.len() - LOWER_AFTER <= i < losses.len() ==> #[trigger] a.calls_for_less(
                losses,
                i,
            ),
{
    let n = losses.len() as int;
    let head = losses.drop_last();
    law_parity_stays_in_range(a, head);
    lemma_good_counts_a_row(a, head);
    assert(losses.take(n - 1) =~= head);
    assert forall|i: int| n - LOWER_AFTER <= i < n implies #[trigger] a.calls_for_less(
        losses,
        i,
    ) by {
        if i < n - 1 {
            assert(losses.take(i) =~= head.take(i));
            assert(a.calls_for_less(head, i));
        }
    }
}

/// The counter of reports that called for less is backed by that many reports.
proof fn lemma_good_counts_a_row(a: Adaptive, losses: Seq<u32>)
    requires
        a.wf(),
        a.good == 0,
    ensures
        a.run(losses).good <= losses.len(),
        forall|i: int|
            losses.len() - a.run(losses).good <= i < losses.len() ==> #[trigger] a.calls_for_less(
                losses,
                i,
            ),
    decreases losses.len(),
{
    if losses.len() > 0 {
        let n = losses.len() as int;
        let head = losses.drop_last();
        lemma_good_counts_a_row(a, head);
        assert(losses.take(n - 1) =~= head);
        assert forall|i: int| n - a.run(losses).good <= i < n implies #[trigger] a.calls_for_less(
            losses,
            i,
        ) by {
            if i < n - 1 {
                assert(losses.take(i) =~= head.take(i));
                assert(a.calls_for_less(head, i));
            }
        }
    }
}

/// A loss calls for redundancy by steps: from one, five and ten percent on, for one,
/// two and three parity shards, and below for none. More loss never calls for less.
pub proof fn law_more_loss_calls_for_more(loss: u32, more: u32)
    ensures
        Adaptive::target_model(loss) <= 3,
        Adaptive::target_model(loss) >= 1 <==> loss >= 10_000,
        Adaptive::target_model(loss) >= 2 <==> loss >= 50_000,
        Adaptive::target_model(loss) >= 3 <==> loss >= 100_000,
        loss <= more ==> Adaptive::target_model(loss) <= Adaptive::target_model(more),
{
}

/// A report moves the smoothed loss a quarter of the way to the loss that it gives,
/// rounded down: never beyond it, never the other way, and not at all where they are
/// the same.
pub proof fn law_smoothing_takes_a_quarter(a: Adaptive, loss: u32)
    ensures
        ({
            let before = a.smoothed_loss_ppm;
            let after = a.reported(loss).smoothed_loss_ppm;
            &&& 0 <= 3 * before + loss - 4 * after < 4
            &&& before <= loss ==> before <= after <= loss
            &&& before >= loss ==> loss <= after <= before
        }),
        a.reported(loss).last_loss_ppm == loss,
{
}

/// What a report calls for is held against what is sent: the redundancy rises only on
/// a call for more, falls only on a call for less, and otherwise stays.
pub proof fn law_redundancy_moves_towards_the_loss(a: Adaptive, loss: u32)
    requires
        a.wf(),
    ensures
        ({
            let after = a.reported(loss);
            let wanted = Adaptive::target_model(after.smoothed_loss_ppm);
            &&& after.parity > a.parity ==> wanted > a.parity && after.parity == a.parity + 1
            &&& after.parity < a.parity ==> wanted < a.parity && after.parity == a.parity - 1
            &&& wanted == a.parity ==> after.parity == a.parity
        }),
{
}

/// Two reports in a row that both call for more than is sent raise the redundancy by
/// one, and a report after one that called for more and was not answered yet does so
/// at once.
pub proof fn law_two_calls_for_more_raise(a: Adaptive, first: u32, second: u32)
    requires
        a.wf(),
        Adaptive::target_model(a.reported(first).smoothed_loss_ppm) > a.parity,
        Adaptive::target_model(a.reported(first).reported(second).smoothed_loss_ppm)
            > a.reported(first).parity,
    ensures
        a.bad == 0 ==> a.reported(first).parity == a.parity && a.reported(first).reported(
            second,
        ).parity == a.parity + 1,
        a.bad == 1 ==> a.reported(first).parity == a.parity + 1,
{
}

/// A report that does not call for more takes back one that did, so that single calls
/// far apart raise nothing.
pub proof fn law_single_calls_for_more_are_forgotten(
    a: Adaptive,
    first: u32,
    between: u32,
    last: u32,
)
    requires
        a.wf(),
        a.bad == 0,
        Adaptive::target_model(a.reported(first).reported(between).smoothed_loss_ppm)
            <= a.reported(first).parity,
    ensures
        a.reported(first).reported(between).bad == 0,
        a.reported(first).reported(between).reported(last).parity <= a.reported(first).reported(
            between,
        ).parity,
{
}

/// Fifteen reports in a row that all call for less than is sent lower the redundancy by
/// one, and any other report ends the row.
pub proof fn law_a_row_of_calls_for_less_lowers(a: Adaptive, losses: Seq<u32>)
    requires
        a.wf(),
        a.good == 0,
        losses.len() == 15,
        forall|i: int|
            0 <= i < 15 ==> Adaptive::target_model(
                a.run(#[trigger] losses.take(i + 1)).smoothed_loss_ppm,
            ) < a.parity,
    ensures
        a.run(losses).parity == a.parity - 1,
        forall|i: int| 0 <= i < 15 ==> a.run(#[trigger] losses.take(i)).parity == a.parity,
{
    lemma_row_so_far(a, losses, 14);
    assert forall|i: int| 0 <= i < 15 implies a.run(#[trigger] losses.take(i)).parity
        == a.parity by {
        lemma_row_so_far(a, losses, i);
    }
    assert(losses.take(15) =~= losses);
    assert(losses.take(15).drop_last() =~= losses.take(14));
    assert(losses.take(14int + 1) == losses.take(15));
}

/// A report that does not call for less ends a row of those that did.
pub proof fn law_rows_are_unbroken(a: Adaptive, loss: u32)
    requires
        a.wf(),
        Adaptive::target_model(a.reported(loss).smoothed_loss_ppm) >= a.parity,
    ensures
        a.reported(loss).good == 0,
        a.reported(loss).parity >= a.parity,
{
}

/// What holds in a row of reports that call for less, before its end.
proof fn lemma_row_so_far(a: Adaptive, losses: Seq<u32>, n: int)
    requires
        a.wf(),
        a.good == 0,
        losses.len() == 15,
        0 <= n <= 14,
        forall|i: int|
            0 <= i < 15 ==> Adaptive::target_model(
                a.run(#[trigger] losses.take(i + 1)).smoothed_loss_ppm,
            ) < a.parity,
    ensures
        a.run(losses.take(n)).parity == a.parity,
        a.run(losses.take(n)).good == n,
    decreases n,
{
    if n > 0 {
        lemma_row_so_far(a, losses, n - 1);
        assert(losses.take(n).drop_last() =~= losses.take(n - 1));
        assert(losses.take((n - 1) + 1) == losses.take(n));
    }
}

/// `n` reports of the same loss.
pub open spec fn steady(loss: u32, n: nat) -> Seq<u32> {
    Seq::new(n, |i: int| loss)
}

/// How many reports of the same loss bring the redundancy to `target` at most, once all
/// of them call for that.
spec fn reports_left(a: Adaptive, target: usize) -> int {
    if a.parity < target {
        2 * (target - a.parity) - a.bad
    } else {
        15 * (a.parity - target) - a.good
    }
}

/// Once the smoothed loss is as near as it gets, it stays.
proof fn lemma_steady_smoothing(a: Adaptive, loss: u32, n: nat)
    requires
        a.wf(),
    ensures
        ({
            let before = a.smoothed_loss_ppm;
            let after = a.run(steady(loss, n)).smoothed_loss_ppm;
            &&& a.run(steady(loss, n)).wf()
            &&& before <= loss ==> before <= after <= loss && (after + 3 >= loss || after >= before
                + n)
            &&& before >= loss ==> loss <= after <= before && (after == loss || after + n <= before)
        }),
    decreases n,
{
    if n > 0 {
        lemma_steady_smoothing(a, loss, (n - 1) as nat);
        assert(steady(loss, n).drop_last() =~= steady(loss, (n - 1) as nat));
    } else {
        assert(steady(loss, 0) =~= Seq::empty());
    }
}

/// A row of reports goes on where another one ended.
proof fn lemma_runs_add_up(a: Adaptive, loss: u32, m: nat, n: nat)
    ensures
        a.run(steady(loss, m + n)) == a.run(steady(loss, m)).run(steady(loss, n)),
    decreases n,
{
    if n == 0 {
        assert(steady(loss, 0) =~= Seq::empty());
    } else {
        lemma_runs_add_up(a, loss, m, (n - 1) as nat);
        assert(steady(loss, m + n).drop_last() =~= steady(loss, (m + n - 1) as nat));
        assert(steady(loss, n).drop_last() =~= steady(loss, (n - 1) as nat));
    }
}

/// Once every report calls for `target`, the redundancy gets there.
proof fn lemma_steady_target(a: Adaptive, loss: u32, target: usize, n: nat)
    requires
        a.wf(),
        target <= 3,
        forall|k: nat|
            Adaptive::target_model(a.run(#[trigger] steady(loss, k)).smoothed_loss_ppm) == target
                || k == 0,
    ensures
        ({
            let after = a.run(steady(loss, n));
            &&& after.wf()
            &&& after.parity == target || reports_left(after, target) <= reports_left(a, target) - n
        }),
    decreases n,
{
    if n == 0 {
        assert(steady(loss, 0) =~= Seq::empty());
    } else {
        lemma_steady_target(a, loss, target, (n - 1) as nat);
        assert(steady(loss, n).drop_last() =~= steady(loss, (n - 1) as nat));
        let before = a.run(steady(loss, (n - 1) as nat));
        let after = a.run(steady(loss, n));
        assert(after == before.reported(loss));
        assert(Adaptive::target_model(a.run(steady(loss, n)).smoothed_loss_ppm) == target);
        assert(before.target_after(loss) == target);
    }
}

/// The redundancy follows the loss: where the same loss is reported again and again, it
/// comes to what that loss calls for and stays there. The number of reports is one that
/// is enough wherever the smoothed loss starts. The smoothed loss is rounded down
/// and may stay up to three millionths below the reported one, so that the loss must not
/// be just above a step.
pub proof fn law_steady_loss_is_answered(a: Adaptive, loss: u32, n: nat)
    requires
        a.wf(),
        loss > a.smoothed_loss_ppm + 3 ==> Adaptive::target_model((loss - 3) as u32)
            == Adaptive::target_model(loss),
        a.smoothed_loss_ppm < loss <= a.smoothed_loss_ppm + 3 ==> Adaptive::target_model(
            a.smoothed_loss_ppm,
        ) == Adaptive::target_model(loss),
        n >= 0x1_0000_0000 + 45,
    ensures
        a.run(steady(loss, n)).parity == Adaptive::target_model(loss),
{
    let target = Adaptive::target_model(loss);
    let m: nat = 0x1_0000_0000;
    lemma_steady_smoothing(a, loss, m);
    let mid = a.run(steady(loss, m));
    assert forall|k: nat| #![trigger steady(loss, k)]
        Adaptive::target_model(mid.run(steady(loss, k)).smoothed_loss_ppm) == target || k == 0 by {
        lemma_runs_add_up(a, loss, m, k);
        lemma_steady_smoothing(a, loss, m + k);
        law_more_loss_calls_for_more(a.run(steady(loss, m + k)).smoothed_loss_ppm, loss);
        law_more_loss_calls_for_more(
            a.smoothed_loss_ppm,
            a.run(steady(loss, m + k)).smoothed_loss_ppm,
        );
        if loss >= 3 {
            law_more_loss_calls_for_more(
                (loss - 3) as u32,
                a.run(steady(loss, m + k)).smoothed_loss_ppm,
            );
        }
    }
    let rest = (n - m) as nat;
    lemma_steady_target(mid, loss, target, rest);
    lemma_runs_add_up(a, loss, m, rest);
    assert(m + rest == n);
}

/// What a report does to any controller. A call for more counts, and the second in a row
/// raises the redundancy, up to three; a call for less counts, and the fifteenth in a row
/// lowers it. Any report but a call for more takes one such call back, and any but a call
/// for less ends their row.
pub proof fn law_every_report_counts(a: Adaptive, loss: u32)
    requires
        a.bad < u8::MAX,
        a.good < u16::MAX,
    ensures
        ({
            let after = a.reported(loss);
            let wanted = Adaptive::target_model(after.smoothed_loss_ppm);
            &&& wanted > a.parity ==> {
                &&& after.good == 0
                &&& a.bad == 0 ==> after.parity == a.parity && after.bad == 1
                &&& a.bad > 0 ==> after.parity == a.parity + 1 && after.bad == 0
            }
            &&& wanted <= a.parity ==> (a.bad == 0 ==> after.bad == 0) && (a.bad > 0 ==> after.bad
                == a.bad - 1)
            &&& wanted == a.parity ==> after.parity == a.parity && after.good == 0
            &&& wanted < a.parity ==> {
                &&& a.good < 14 ==> after.parity == a.parity && after.good == a.good + 1
                &&& a.good >= 14 ==> after.parity == a.parity - 1 && after.good == 0
            }
        }),
{
}

} // verus!
