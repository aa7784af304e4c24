use vstd::prelude::*;
use crate::params::Parameters;
use crate::schedule::{is_action_time, time_for_action};
use crate::text::{decimal, push_char, push_decimal, push_text};

verus! {

/// The rank (see `Loss`) of the loss 10: a layout whose loss ranks above it
/// is invalid and is not counted.
pub const LOSS_LIMIT_RANK: u32 = 0xC120_0000;

/// The rank (see `Loss`) of the greatest finite single-precision number,
/// the best loss before any report.
pub const START_RANK: u32 = 0xFF7F_FFFF;

/// How often, in iterations, the secretary gives a sign of life.
pub const PRINT_INTERVAL: u32 = 100;

/// A loss as the secretary reads it.  `rank` orders losses as the numbers
/// are ordered, equal numbers having equal ranks, and is `None` for a loss
/// that is not a number, which compares with nothing: for a single-precision
/// loss with bit pattern `b` (zero taken as positive), the rank is `b` with
/// the top bit set when the sign bit of `b` is clear, and the complement of
/// `b` when it is set.  `label` is the loss written with seven decimals;
/// the statistics count losses by label.
pub struct Loss {
    pub rank: Option<u32>,
    pub label: String,
}

/// A loss of rank `rank` lies above the limit of valid layouts; a loss that
/// is not a number does not.
pub open spec fn over_limit(rank: Option<u32>) -> bool {
    rank matches Some(r) && r > LOSS_LIMIT_RANK
}

/// What a report brought to light.
pub enum Finding {
    /// Nothing to announce.
    Nothing,
    /// A loss below every loss so far.
    NewMinimum,
    /// The best loss again; it has now been found this many times.
    SameMinimum(u16),
}

/// The outcome of a report.
pub struct Report {
    /// The report count has reached a multiple of the print interval.
    pub life_sign: bool,
    pub finding: Finding,
}

/// How many of `reports` carry the label `label`.
pub open spec fn occurrences(reports: Seq<(Option<u32>, Seq<char>, Seq<char>)>, label: Seq<char>) -> nat
    decreases reports.len(),
{
    if reports.len() == 0 {
        0
    } else {
        occurrences(reports.drop_last(), label) + if reports.last().1 == label { 1nat } else { 0nat }
    }
}

/// The least rank among `reports`, or `START_RANK` when it is smaller;
/// losses that are not numbers have no rank.
pub open spec fn min_rank(reports: Seq<(Option<u32>, Seq<char>, Seq<char>)>) -> u32
    decreases reports.len(),
{
    if reports.len() == 0 {
        START_RANK
    } else {
        let prev = min_rank(reports.drop_last());
        match reports.last().0 {
            Some(r) => if r < prev { r } else { prev },
            None => prev,
        }
    }
}

/// How many of `reports` have rank `rank`.
pub open spec fn ties(reports: Seq<(Option<u32>, Seq<char>, Seq<char>)>, rank: u32) -> nat
    decreases reports.len(),
{
    if reports.len() == 0 {
        0
    } else {
        ties(reports.drop_last(), rank) + if reports.last().0 == Some(rank) { 1nat } else { 0nat }
    }
}

/// The layout of the first of `reports` with rank `rank`.
pub open spec fn first_with_rank(reports: Seq<(Option<u32>, Seq<char>, Seq<char>)>, rank: u32) -> Option<Seq<char>>
    decreases reports.len(),
{
    if reports.len() == 0 {
        None
    } else {
        match first_with_rank(reports.drop_last(), rank) {
            Some(layout) => Some(layout),
            None => if reports.last().0 == Some(rank) { Some(reports.last().2) } else { None },
        }
    }
}

/// No report ranks below the least rank.
proof fn lemma_min_rank_below(reports: Seq<(Option<u32>, Seq<char>, Seq<char>)>)
    ensures
        min_rank(reports) <= START_RANK,
        forall|i: int| 0 <= i < reports.len() ==> (#[trigger] reports[i].0 matches Some(r) ==> min_rank(reports) <= r),
    decreases reports.len(),
{
    if reports.len() > 0 {
        lemma_min_rank_below(reports.drop_last());
        assert forall|i: int| 0 <= i < reports.len() implies (#[trigger] reports[i].0 matches Some(r) ==> min_rank(reports) <= r) by {
            if i < reports.len() - 1 {
                assert(reports.drop_last()[i] == reports[i]);
            }
        }
    }
}

/// The least rank is the least of `START_RANK` and the ranks of the
/// reports: no report ranks below it, and it is `START_RANK` or the rank of
/// some report.
pub proof fn lemma_min_rank_is_least(reports: Seq<(Option<u32>, Seq<char>, Seq<char>)>)
    ensures
        min_rank(reports) <= START_RANK,
        forall|i: int| 0 <= i < reports.len() ==> (#[trigger] reports[i].0 matches Some(r) ==> min_rank(reports) <= r),
        min_rank(reports) == START_RANK || exists|i: int| 0 <= i < reports.len() && #[trigger] reports[i].0 == Some(
            min_rank(reports),
        ),
    decreases reports.len(),
{
    lemma_min_rank_below(reports);
    if reports.len() > 0 {
        let prev = reports.drop_last();
        lemma_min_rank_is_least(prev);
        if min_rank(reports) != START_RANK {
            if min_rank(reports) == min_rank(prev) {
                let i = choose|i: int| 0 <= i < prev.len() && #[trigger] prev[i].0 == Some(min_rank(prev));
                assert(reports[i] == prev[i]);
            } else {
                assert(reports[reports.len() - 1].0 == Some(min_rank(reports)));
            }
        }
    }
}

/// No report has a rank below the least rank, so none ties with it.
proof fn lemma_no_ties_below(reports: Seq<(Option<u32>, Seq<char>, Seq<char>)>, rank: u32)
    requires
        forall|i: int| 0 <= i < reports.len() ==> (#[trigger] reports[i].0 matches Some(r) ==> rank < r),
    ensures
        ties(reports, rank) == 0,
        first_with_rank(reports, rank) is None,
    decreases reports.len(),
{
    if reports.len() > 0 {
        assert(reports[reports.len() - 1].0 matches Some(r) ==> rank < r);
        assert forall|i: int| 0 <= i < reports.drop_last().len() implies (#[trigger] reports.drop_last()[i].0 matches Some(
            r,
        ) ==> rank < r) by {
            assert(reports.drop_last()[i] == reports[i]);
        }
        lemma_no_ties_below(reports.drop_last(), rank);
    }
}

/// Whether the rank `rank` lies above the limit of valid layouts.
fn is_over_limit(rank: &Option<u32>) -> (r: bool)
    ensures
        r == over_limit(*rank),
{
    match rank {
        Some(r) => *r > LOSS_LIMIT_RANK,
        None => false,
    }
}

/// Whether `rank` is the rank `r`.
fn is_rank(rank: &Option<u32>, r: u32) -> (b: bool)
    ensures
        b == (*rank == Some(r)),
{
    match rank {
        Some(x) => *x == r,
        None => false,
    }
}

/// Keeps count of the losses found and of the best one.
pub struct Secretary {
    loss_stat: Vec<(String, u32)>,
    iteration: u32,
    print_interval: u32,
    min_loss: u32,
    nr_min_loss: u16,
    nr_min_loss_target: u16,
    best_layout: String,
    reports: Ghost<Seq<(Option<u32>, Seq<char>, Seq<char>)>>,
}

impl Secretary {
    /// The valid reports so far, each as its rank, label and layout.
    pub closed spec fn reports(&self) -> Seq<(Option<u32>, Seq<char>, Seq<char>)> {
        self.reports@
    }

    /// The number of reports, valid or not.
    pub closed spec fn spec_iteration(&self) -> u32 {
        self.iteration
    }

    /// How often, in iterations, a sign of life is due.
    pub closed spec fn spec_print_interval(&self) -> u32 {
        self.print_interval
    }

    /// The rank of the best loss so far.
    pub closed spec fn spec_min_loss(&self) -> u32 {
        self.min_loss
    }

    /// How many times the best loss has been found.
    pub closed spec fn spec_nr_min_loss(&self) -> u16 {
        self.nr_min_loss
    }

    /// How many times the best loss must be found.
    pub closed spec fn spec_nr_min_loss_target(&self) -> u16 {
        self.nr_min_loss_target
    }

    /// The layout of the first report of the best loss.
    pub closed spec fn spec_best_layout(&self) -> Seq<char> {
        self.best_layout@
    }

    /// The loss statistics: each label with its count.
    pub closed spec fn spec_loss_stat(&self) -> Seq<(String, u32)> {
        self.loss_stat@
    }

    /// The labels of the statistics, in the order of their first report.
    pub open spec fn stat_labels(&self) -> Seq<Seq<char>> {
        self.spec_loss_stat().map_values(|e: (String, u32)| e.0@)
    }

    /// What the secretary keeps is what the valid reports add up to: each
    /// label is counted once in the statistics, with the number of valid
    /// reports that carried it, and exactly these labels are there; the best
    /// loss is the least reported one (or the start value); its count is
    /// the number of reports that found it; and the best layout is the
    /// layout of the first of those reports (empty before any).
    pub open spec fn wf(&self) -> bool {
        &&& self.spec_print_interval() == PRINT_INTERVAL
        &&& self.stat_labels().no_duplicates()
        &&& forall|i: int| 0 <= i < self.spec_loss_stat().len()
            ==> #[trigger] self.spec_loss_stat()[i].1 == occurrences(self.reports(), self.spec_loss_stat()[i].0@)
                && self.spec_loss_stat()[i].1 > 0
        &&& forall|j: int| 0 <= j < self.reports().len() ==> self.stat_labels().contains(#[trigger] self.reports()[j].1)
        &&& self.spec_min_loss() == min_rank(self.reports())
        &&& self.spec_nr_min_loss() == ties(self.reports(), self.spec_min_loss())
        &&& self.spec_min_loss() < START_RANK ==> first_with_rank(self.reports(), self.spec_min_loss()) == Some(self.spec_best_layout())
        &&& self.spec_min_loss() == START_RANK ==> self.spec_best_layout() == Seq::<char>::empty()
    }

    /// Whether `report` can count `loss` without a counter overflowing.
    pub open spec fn can_count(&self, loss: &Loss) -> bool {
        &&& self.spec_iteration() < u32::MAX
        &&& !over_limit(loss.rank) ==> occurrences(self.reports(), loss.label@) < u32::MAX
        &&& !over_limit(loss.rank) && loss.rank == Some(self.spec_min_loss()) ==> self.spec_nr_min_loss() < u16::MAX
    }

    /// The position in the statistics of the label `label`.
    fn find_label(&self, label: &String) -> (r: Option<usize>)
        requires
            self.wf(),
        ensures
            match r {
                Some(i) => i < self.spec_loss_stat().len() && self.spec_loss_stat()[i as int].0@ == label@,
                None => !self.stat_labels().contains(label@),
            },
    {
        let mut i: usize = 0;
        while i < self.loss_stat.len()
            invariant
                i <= self.loss_stat@.len(),
                forall|j: int| 0 <= j < i ==> self.loss_stat@[j].0@ != label@,
            decreases self.loss_stat@.len() - i,
        {
            if self.loss_stat[i].0 == *label {
                return Some(i);
            }
            i = i + 1;
        }
        proof {
            if self.stat_labels().contains(label@) {
                let j = choose|j: int| 0 <= j < self.stat_labels().len() && self.stat_labels()[j] == label@;
                assert(self.loss_stat@[j].0@ == label@);
            }
        }
        None
    }

    /// Whether `report` can count `loss` without a counter overflowing.
    pub fn report_fits(&self, loss: &Loss) -> (r: bool)
        requires
            self.wf(),
        ensures
            r == self.can_count(loss),
    {
        if self.iteration == u32::MAX {
            return false;
        }
        if !is_over_limit(&loss.rank) {
            match self.find_label(&loss.label) {
                Some(i) => {
                    if self.loss_stat[i].1 == u32::MAX {
                        return false;
                    }
                },
                None => {
                    proof {
                        if occurrences(self.reports(), loss.label@) > 0 {
                            lemma_occurring_label(self.reports(), loss.label@);
                            let j = choose|j: int| 0 <= j < self.reports().len() && self.reports()[j].1 == loss.label@;
                            assert(self.stat_labels().contains(self.reports()[j].1));
                        }
                    }
                },
            }
            if is_rank(&loss.rank, self.min_loss) && self.nr_min_loss == u16::MAX {
                return false;
            }
        }
        true
    }

    /// Takes note of the loss of one more optimised layout.  Losses above
    /// the limit belong to invalid layouts and are not counted.  A loss
    /// below the best so far makes its layout the best layout, found once;
    /// the best loss again adds one to its count.
    pub fn report(&mut self, loss: Loss, key_map_string: String) -> (r: Report)
        requires
            old(self).wf(),
            old(self).can_count(&loss),
        ensures
            final(self).wf(),
            final(self).spec_iteration() == old(self).spec_iteration() + 1,
            final(self).spec_nr_min_loss_target() == old(self).spec_nr_min_loss_target(),
            r.life_sign == is_action_time(final(self).spec_iteration(), PRINT_INTERVAL),
            over_limit(loss.rank) ==> {
                &&& final(self).reports() == old(self).reports()
                &&& final(self).spec_loss_stat() == old(self).spec_loss_stat()
                &&& final(self).spec_min_loss() == old(self).spec_min_loss()
                &&& final(self).spec_nr_min_loss() == old(self).spec_nr_min_loss()
                &&& final(self).spec_best_layout() == old(self).spec_best_layout()
                &&& r.finding is Nothing
            },
            !over_limit(loss.rank) ==> {
                &&& final(self).reports() == old(self).reports().push((loss.rank, loss.label@, key_map_string@))
                &&& final(self).stat_labels() == if old(self).stat_labels().contains(loss.label@) {
                    old(self).stat_labels()
                } else {
                    old(self).stat_labels().push(loss.label@)
                }
                &&& r.finding == if loss.rank matches Some(rank) && rank < old(self).spec_min_loss() {
                    Finding::NewMinimum
                } else if loss.rank == Some(old(self).spec_min_loss()) {
                    Finding::SameMinimum((old(self).spec_nr_min_loss() + 1) as u16)
                } else {
                    Finding::Nothing
                }
            },
    {
        self.iteration = self.iteration + 1;
        // give a sign of life every once in a while
        let life_sign = time_for_action(self.iteration, self.print_interval);
        // an invalid layout is not counted
        if is_over_limit(&loss.rank) {
            return Report { life_sign, finding: Finding::Nothing };
        }
        let ghost before = old(self).reports();
        let ghost label = loss.label@;
        let ghost entry = (loss.rank, loss.label@, key_map_string@);
        let ghost after = before.push(entry);
        proof {
            assert(after.drop_last() =~= before);
            lemma_min_rank_below(before);
        }
        let ghost old_stat = self.loss_stat@;
        let ghost old_labels = self.stat_labels();
        proof {
            assert(after.last() == entry);
            assert forall|l: Seq<char>| #[trigger] occurrences(after, l) == occurrences(before, l) + if l == label { 1nat } else { 0nat } by {
                assert(after.drop_last() =~= before);
            }
        }
        // count the loss under its label
        match self.find_label(&loss.label) {
            Some(i) => {
                let count = self.loss_stat[i].1;
                proof {
                    assert(count == occurrences(before, loss.label@));
                }
                let text = self.loss_stat[i].0.clone();
                self.loss_stat.set(i, (text, count + 1));
                assert(self.stat_labels()[i as int] == label);
                assert(self.stat_labels() =~= old_labels);
                assert forall|j: int| 0 <= j < self.loss_stat@.len() implies #[trigger] self.loss_stat@[j].1
                    == occurrences(after, self.loss_stat@[j].0@) by {
                    if j != i {
                        assert(old_labels[j] != old_labels[i as int]);
                        assert(self.loss_stat@[j] == old_stat[j]);
                    }
                }
            },
            None => {
                proof {
                    if occurrences(before, loss.label@) > 0 {
                        lemma_occurring_label(before, loss.label@);
                        let j = choose|j: int| 0 <= j < before.len() && before[j].1 == loss.label@;
                        assert(self.stat_labels().contains(before[j].1));
                    }
                }
                self.loss_stat.push((loss.label, 1));
                assert(self.stat_labels()[self.stat_labels().len() - 1] == label);
                assert(self.stat_labels() =~= old_labels.push(label));
                assert forall|j: int| 0 <= j < self.loss_stat@.len() implies #[trigger] self.loss_stat@[j].1
                    == occurrences(after, self.loss_stat@[j].0@) by {
                    if j < old_stat.len() {
                        assert(old_labels[j] == old_stat[j].0@);
                        assert(old_labels.contains(old_stat[j].0@));
                        assert(self.loss_stat@[j] == old_stat[j]);
                    }
                }
            },
        }
        self.reports = Ghost(after);
        // a loss that is not a number is neither below nor equal to the best
        let rank = match loss.rank {
            Some(r) => r,
            None => START_RANK,
        };
        // a loss that is not a number is neither below nor equal to the best
        let finding = if loss.rank.is_none() {
            Finding::Nothing
        } else if rank < self.min_loss {
            proof {
                lemma_no_ties_below(before, rank);
            }
            self.min_loss = rank;
            self.nr_min_loss = 1;
            self.best_layout = key_map_string;
            Finding::NewMinimum
        } else if rank == self.min_loss {
            self.nr_min_loss = self.nr_min_loss + 1;
            Finding::SameMinimum(self.nr_min_loss)
        } else {
            Finding::Nothing
        };
        proof {
            let old_stat = old(self).spec_loss_stat();
            let old_labels = old(self).stat_labels();
            assert forall|j: int| 0 <= j < self.reports().len() implies self.stat_labels().contains(
                #[trigger] self.reports()[j].1,
            ) by {
                if j < before.len() {
                    assert(self.reports()[j] == before[j]);
                    assert(old_labels.contains(before[j].1));
                    let k = choose|k: int| 0 <= k < old_labels.len() && old_labels[k] == before[j].1;
                    assert(self.stat_labels()[k] == old_labels[k]);
                } else {
                    assert(self.reports()[j].1 == label);
                }
            }
        }
        Report { life_sign, finding }
    }

    /// Whether the best loss has been found fewer times than the target.
    pub fn need_more_data(&self) -> (r: bool)
        ensures
            r == (self.spec_nr_min_loss() < self.spec_nr_min_loss_target()),
    {
        self.nr_min_loss < self.nr_min_loss_target
    }

    /// The number of reports, valid or not.
    pub fn iteration(&self) -> (r: u32)
        ensures
            r == self.spec_iteration(),
    {
        self.iteration
    }

    /// How many times the best loss has been found.
    pub fn nr_min_loss(&self) -> (r: u16)
        ensures
            r == self.spec_nr_min_loss(),
    {
        self.nr_min_loss
    }

    /// The layout of the first report of the best loss.
    pub fn best_layout(&self) -> (r: &String)
        ensures
            r@ == self.spec_best_layout(),
    {
        &self.best_layout
    }

    /// The loss statistics: each label with its count.
    pub fn loss_stat(&self) -> (r: &Vec<(String, u32)>)
        ensures
            r@ == self.spec_loss_stat(),
    {
        &self.loss_stat
    }
}

/// A label that some report carries belongs to one of the reports.
proof fn lemma_occurring_label(reports: Seq<(Option<u32>, Seq<char>, Seq<char>)>, label: Seq<char>)
    requires
        occurrences(reports, label) > 0,
    ensures
        exists|j: int| 0 <= j < reports.len() && reports[j].1 == label,
    decreases reports.len(),
{
    if reports.last().1 != label {
        lemma_occurring_label(reports.drop_last(), label);
        let j = choose|j: int| 0 <= j < reports.drop_last().len() && reports.drop_last()[j].1 == label;
        assert(reports[j] == reports.drop_last()[j]);
    } else {
        assert(reports[reports.len() - 1].1 == label);
    }
}

/// A secretary that has heard nothing yet and stops once the best loss has
/// been found `nr_min_loss_target` times.
pub fn init_secretary(par_struct: &Parameters) -> (s: Secretary)
    ensures
        s.wf(),
        s.reports() == Seq::<(Option<u32>, Seq<char>, Seq<char>)>::empty(),
        s.spec_iteration() == 0,
        s.spec_nr_min_loss_target() == par_struct.nr_min_loss_target,
        s.spec_loss_stat() == Seq::<(String, u32)>::empty(),
{
    let s = Secretary {
        loss_stat: Vec::new(),
        iteration: 0,
        print_interval: PRINT_INTERVAL,
        min_loss: START_RANK,
        nr_min_loss: 0,
        nr_min_loss_target: par_struct.nr_min_loss_target,
        best_layout: String::new(),
        reports: Ghost(Seq::empty()),
    };
    assert(s.stat_labels() =~= Seq::<Seq<char>>::empty());
    s
}

/// The statistics as text: a line `label count` for each label, in order.
pub open spec fn stats_text(stats: Seq<(String, u32)>) -> Seq<char>
    decreases stats.len(),
{
    if stats.len() == 0 {
        Seq::empty()
    } else {
        stats_text(stats.drop_last()) + stats.last().0@ + seq![' '] + decimal(stats.last().1 as nat) + seq!['\n']
    }
}

/// The statistics text is its lines one after the other, in the order of
/// the labels, each line the label, a space, the count in decimal and a
/// line break.
pub proof fn lemma_stats_text_lines(a: Seq<(String, u32)>, b: Seq<(String, u32)>, label: String, count: u32)
    ensures
        stats_text(a + b) == stats_text(a) + stats_text(b),
        stats_text(seq![(label, count)]) == label@ + seq![' '] + decimal(count as nat) + seq!['\n'],
    decreases b.len(),
{
    let one = seq![(label, count)];
    assert(one.drop_last() =~= Seq::<(String, u32)>::empty());
    assert(stats_text(Seq::<(String, u32)>::empty()) == Seq::<char>::empty());
    assert(stats_text(one) =~= label@ + seq![' '] + decimal(count as nat) + seq!['\n']);
    if b.len() == 0 {
        assert(a + b =~= a);
        assert(stats_text(a) + stats_text(b) =~= stats_text(a));
    } else {
        lemma_stats_text_lines(a, b.drop_last(), label, count);
        assert((a + b).drop_last() =~= a + b.drop_last());
        assert((a + b).last() == b.last());
        assert(stats_text(a + b) =~= stats_text(a) + stats_text(b));
    }
}

/// The loss statistics as the text of the statistics file: one line per
/// label, the label and its count separated by a space.
pub fn loss_stats_text(loss_stat: &Vec<(String, u32)>) -> (data: String)
    ensures
        data@ == stats_text(loss_stat@),
{
    let mut data = String::new();
    for i in 0..loss_stat.len()
        invariant
            data@ == stats_text(loss_stat@.take(i as int)),
    {
        let ghost before = data@;
        push_text(&mut data, &loss_stat[i].0);
        push_char(&mut data, ' ');
        push_decimal(&mut data, loss_stat[i].1 as u64);
        push_char(&mut data, '\n');
        proof {
            let t = loss_stat@.take(i + 1);
            assert(t.drop_last() =~= loss_stat@.take(i as int));
            assert(t.last() == loss_stat@[i as int]);
            assert(data@ =~= stats_text(t));
        }
    }
    assert(loss_stat@.take(loss_stat@.len() as int) =~= loss_stat@);
    data
}

/// The text announcing the end of a search that took `total` seconds: the
/// time in days, hours, minutes and seconds, leaving out the leading units
/// that are zero.
pub open spec fn elapsed_text(total: nat) -> Seq<char> {
    let mins_total = total / 60;
    let hours_total = mins_total / 60;
    let days = hours_total / 24;
    let secs = total % 60;
    let mins = mins_total % 60;
    let hours = hours_total % 24;
    let head = "Optimization done! Time elapsed: "@;
    if days > 0 {
        head + decimal(days) + "days "@ + decimal(hours) + "h "@ + decimal(mins) + "min "@ + decimal(secs) + "s."@
    } else if hours > 0 {
        head + decimal(hours) + "h "@ + decimal(mins) + "min "@ + decimal(secs) + "s."@
    } else if mins > 0 {
        head + decimal(mins) + "min "@ + decimal(secs) + "s."@
    } else {
        head + decimal(secs) + "s."@
    }
}

/// The elapsed-time message, by the length of the run: under a minute it
/// gives the seconds; under an hour the whole minutes and the seconds left
/// over; under a day the whole hours, then the minutes and seconds left
/// over; otherwise the whole days, then the hours, minutes and seconds left
/// over.  Minutes always come before "min " and seconds before "s.".
pub proof fn lemma_elapsed_text_by_range(total: nat)
    ensures
        total < 60 ==> elapsed_text(total) == "Optimization done! Time elapsed: "@ + decimal(total) + "s."@,
        60 <= total < 3600 ==> elapsed_text(total) == "Optimization done! Time elapsed: "@ + decimal(total / 60)
            + "min "@ + decimal(total % 60) + "s."@,
        3600 <= total < 86400 ==> elapsed_text(total) == "Optimization done! Time elapsed: "@ + decimal(
            total / 3600,
        ) + "h "@ + decimal((total / 60) % 60) + "min "@ + decimal(total % 60) + "s."@,
        86400 <= total ==> elapsed_text(total) == "Optimization done! Time elapsed: "@ + decimal(total / 86400)
            + "days "@ + decimal((total / 3600) % 24) + "h "@ + decimal((total / 60) % 60) + "min "@ + decimal(
            total % 60,
        ) + "s."@,
{
    vstd::arithmetic::div_mod::lemma_div_denominator(total as int, 60, 60);
    vstd::arithmetic::div_mod::lemma_div_denominator(total as int, 3600, 24);
    let mins_total = total / 60;
    let hours_total = mins_total / 60;
    assert(hours_total == total / 3600);
    assert(hours_total / 24 == total / 86400);
    if total < 3600 {
        assert(hours_total == 0);
        if total >= 60 {
            assert(mins_total < 60);
            assert(mins_total % 60 == mins_total);
            assert(mins_total > 0);
        }
    } else if total < 86400 {
        assert(hours_total >= 1 && hours_total < 24);
        assert(hours_total % 24 == hours_total);
    } else {
        assert(hours_total / 24 >= 1);
    }
}

/// Appends the text of a literal.
fn push_str(s: &mut String, t: &str)
    ensures
        final(s)@ == old(s)@ + t@,
{
    s.append(t);
}

/// The announcement of the end of a search that took `total_secs` seconds.
pub fn elapsed_message(total_secs: u64) -> (msg: String)
    ensures
        msg@ == elapsed_text(total_secs as nat),
        total_secs < 60 ==> msg@ == "Optimization done! Time elapsed: "@ + decimal(total_secs as nat) + "s."@,
        60 <= total_secs < 3600 ==> msg@ == "Optimization done! Time elapsed: "@ + decimal(total_secs as nat / 60)
            + "min "@ + decimal(total_secs as nat % 60) + "s."@,
        3600 <= total_secs < 86400 ==> msg@ == "Optimization done! Time elapsed: "@ + decimal(
            total_secs as nat / 3600,
        ) + "h "@ + decimal((total_secs as nat / 60) % 60) + "min "@ + decimal(total_secs as nat % 60) + "s."@,
        86400 <= total_secs ==> msg@ == "Optimization done! Time elapsed: "@ + decimal(total_secs as nat / 86400)
            + "days "@ + decimal((total_secs as nat / 3600) % 24) + "h "@ + decimal((total_secs as nat / 60) % 60)
            + "min "@ + decimal(total_secs as nat % 60) + "s."@,
{
    proof {
        lemma_elapsed_text_by_range(total_secs as nat);
    }
    let mins_total = total_secs / 60;
    let hours_total = mins_total / 60;
    let days = hours_total / 24;
    let secs = total_secs % 60;
    let mins = mins_total % 60;
    let hours = hours_total % 24;
    let mut msg = String::new();
    push_str(&mut msg, "Optimization done! Time elapsed: ");
    if days > 0 {
        push_decimal(&mut msg, days);
        push_str(&mut msg, "days ");
    }
    if days > 0 || hours > 0 {
        push_decimal(&mut msg, hours);
        push_str(&mut msg, "h ");
    }
    if days > 0 || hours > 0 || mins > 0 {
        push_decimal(&mut msg, mins);
        push_str(&mut msg, "min ");
    }
    push_decimal(&mut msg, secs);
    push_str(&mut msg, "s.");
    assert(msg@ =~= elapsed_text(total_secs as nat));
    msg
}

} // verus!
