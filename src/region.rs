//! Region viewer: keeps, out of the records that a fetch's chunks hold, those
//! that intersect the requested interval.
use vstd::prelude::*;
use crate::bins::{
    bin_region_spec, bin_to_region, lemma_bin_region_covers, reg2bin_spec, MAX_BIN, MAX_POSITION,
};
use crate::record::{all_wf, Corruption, Error, Record};

verus! {

/// What the viewer does with one record.
#[derive(Clone, Copy, Debug, PartialEq, Eq, Structural)]
pub enum Step {
    /// Passed over.
    Skip,
    /// Handed to the caller.
    Accept,
    /// Sorted input: no later record can intersect the interval.
    Stop,
    /// The record is corrupted.
    Fail(Corruption),
}

/// The decision on a record `r`, where `keep` is the predicate's verdict on it.
pub open spec fn region_step(r: Record, keep: bool, start: int, end: int) -> Step {
    let region = bin_region_spec(r.bin as int);
    if !r.is_mapped_spec() {
        Step::Skip
    } else if r.start >= end {
        Step::Stop
    } else if !keep {
        Step::Skip
    } else if r.bin > MAX_BIN {
        Step::Fail(Corruption::BinTooLarge)
    } else if region.0 >= start && region.1 <= end {
        Step::Accept
    } else if r.end_spec() != -1 && r.end_spec() < r.start {
        Step::Fail(Corruption::EndBeforeStart)
    } else if r.end_spec() > start {
        Step::Accept
    } else {
        Step::Skip
    }
}

/// Index of the first item from `i` on that is not passed over.
pub open spec fn first_decisive(
    items: Seq<Result<Record, Error>>,
    keep: Seq<bool>,
    i: int,
    start: int,
    end: int,
) -> int
    decreases items.len() - i,
{
    if i < 0 || i >= items.len() {
        items.len() as int
    } else {
        match items[i] {
            Ok(r) => if region_step(r, keep[i], start, end) == Step::Skip {
                first_decisive(items, keep, i + 1, start, end)
            } else {
                i
            },
            Err(_) => i,
        }
    }
}

/// What reading at item `j` reports.
pub open spec fn outcome_at(
    items: Seq<Result<Record, Error>>,
    keep: Seq<bool>,
    j: int,
    start: int,
    end: int,
) -> Result<(), Error> {
    if j >= items.len() {
        Err(Error::NoMoreRecords)
    } else {
        match items[j] {
            Ok(r) => match region_step(r, keep[j], start, end) {
                Step::Accept => Ok(()),
                Step::Fail(c) => Err(Error::Corrupted(c)),
                _ => Err(Error::NoMoreRecords),
            },
            Err(e) => Err(e),
        }
    }
}

proof fn lemma_first_decisive_bounds(
    items: Seq<Result<Record, Error>>,
    keep: Seq<bool>,
    i: int,
    start: int,
    end: int,
)
    requires
        0 <= i <= items.len(),
    ensures
        i <= first_decisive(items, keep, i, start, end) <= items.len(),
    decreases items.len() - i,
{
    if i < items.len() {
        lemma_first_decisive_bounds(items, keep, i + 1, start, end);
    }
}

pub proof fn lemma_reverse_drop_last<T>(s: Seq<T>)
    requires
        s.len() > 0,
    ensures
        s.drop_last().reverse() == s.reverse().skip(1),
{
    assert forall|k: int| 0 <= k < s.len() - 1 implies s.drop_last().reverse()[k] == s.reverse().skip(
        1,
    )[k] by {
        assert(s.reverse().skip(1)[k] == s.reverse()[k + 1]);
    }
    assert(s.drop_last().reverse() =~= s.reverse().skip(1));
}

/// Records of one region, filtered by position and by a predicate.
pub struct RegionViewer {
    /// Records still to be read, the next one last.
    pending: Vec<Result<Record, Error>>,
    /// The predicate's verdicts, aligned with `pending`.
    keep: Vec<bool>,
    start: i32,
    end: i32,
}

impl RegionViewer {
    /// Records and errors still to be read, in stream order.
    pub closed spec fn items(&self) -> Seq<Result<Record, Error>> {
        self.pending@.reverse()
    }

    /// The predicate's verdicts on `items`.
    pub closed spec fn verdicts(&self) -> Seq<bool> {
        self.keep@.reverse()
    }

    pub closed spec fn start_spec(&self) -> int {
        self.start as int
    }

    pub closed spec fn end_spec(&self) -> int {
        self.end as int
    }

    pub closed spec fn wf(&self) -> bool {
        &&& self.pending@.len() == self.keep@.len()
        &&& all_wf(self.pending@)
    }

    /// A viewer over the records that a fetch read, in stream order, keeping
    /// those of `[start, end)` for which `predicate` holds. The predicate is
    /// asked only about mapped records that start before `end`.
    pub fn with_predicate<F: Fn(&Record) -> bool>(
        records: Vec<Result<Record, Error>>,
        start: i32,
        end: i32,
        predicate: F,
    ) -> (r: RegionViewer)
        requires
            all_wf(records@),
            forall|rec: &Record| #[trigger] predicate.requires((rec,)),
        ensures
            r.wf(),
            r.items() == records@,
            r.start_spec() == start,
            r.end_spec() == end,
            forall|k: int|
                0 <= k < records@.len() ==> (#[trigger] records@[k] matches Ok(rec) ==> if rec.is_mapped_spec()
                    && rec.start < end {
                    predicate.ensures((&rec,), r.verdicts()[k])
                } else {
                    r.verdicts()[k]
                }),
    {
        let ghost items = records@;
        let mut input = records;
        let mut pending: Vec<Result<Record, Error>> = Vec::new();
        let mut keep: Vec<bool> = Vec::new();
        while input.len() > 0
            invariant
                input@ + pending@.reverse() == items,
                pending@.len() == keep@.len(),
                all_wf(input@),
                all_wf(pending@),
                forall|k: int|
                    0 <= k < pending@.len() ==> (#[trigger] pending@[k] matches Ok(rec) ==> if rec.is_mapped_spec()
                        && rec.start < end {
                        predicate.ensures((&rec,), keep@[k])
                    } else {
                        keep@[k]
                    }),
                forall|rec: &Record| #[trigger] predicate.requires((rec,)),
            decreases input@.len(),
        {
            let item = input.pop().unwrap();
            let verdict = match &item {
                Ok(rec) => if rec.is_mapped() && rec.start < end {
                    predicate(rec)
                } else {
                    true
                },
                Err(_) => true,
            };
            pending.push(item);
            keep.push(verdict);
            proof {
                assert(input@ + pending@.reverse() =~= items);
            }
        }
        assert(pending@.reverse() =~= items);
        let r = RegionViewer { pending, keep, start, end };
        assert forall|k: int|
            0 <= k < items.len() implies (#[trigger] items[k] matches Ok(rec) ==> if rec.is_mapped_spec()
                && rec.start < end {
                predicate.ensures((&rec,), r.verdicts()[k])
            } else {
                r.verdicts()[k]
            }) by {
            let n = pending@.len() as int;
            assert(items[k] == pending@[n - 1 - k]);
            assert(r.verdicts()[k] == keep@[n - 1 - k]);
        }
        r
    }

    /// Reads the next record of the region into `record`. Records that are
    /// unmapped, fail the predicate or end before the interval are passed
    /// over; reaching a record that starts at or after the interval's end
    /// reports `NoMoreRecords`.
    pub fn read_into(&mut self, record: &mut Record) -> (r: Result<(), Error>)
        requires
            old(self).wf(),
        ensures
            final(self).wf(),
            final(self).start_spec() == old(self).start_spec(),
            final(self).end_spec() == old(self).end_spec(),
            ({
                let items = old(self).items();
                let keep = old(self).verdicts();
                let j = first_decisive(
                    items,
                    keep,
                    0,
                    old(self).start_spec(),
                    old(self).end_spec(),
                );
                &&& r == outcome_at(items, keep, j, old(self).start_spec(), old(self).end_spec())
                &&& r is Ok ==> items[j] == Ok::<Record, Error>(*final(record))
                &&& final(self).items() == items.skip(if j < items.len() {
                    j + 1
                } else {
                    j
                })
                &&& final(self).verdicts() == keep.skip(if j < items.len() {
                    j + 1
                } else {
                    j
                })
            }),
    {
        let ghost items = self.items();
        let ghost keeps = self.verdicts();
        let ghost st = self.start as int;
        let ghost en = self.end as int;
        let ghost mut i: int = 0;
        proof {
            assert(items.skip(0) =~= items);
            assert(keeps.skip(0) =~= keeps);
            lemma_first_decisive_bounds(items, keeps, 0, st, en);
        }
        loop
            invariant
                self.wf(),
                st == self.start,
                en == self.end,
                st == old(self).start,
                en == old(self).end,
                items == old(self).items(),
                keeps == old(self).verdicts(),
                items.len() == keeps.len(),
                0 <= i <= items.len(),
                self.items() == items.skip(i),
                self.verdicts() == keeps.skip(i),
                first_decisive(items, keeps, 0, st, en) == first_decisive(items, keeps, i, st, en),
            decreases items.len() - i,
        {
            let ghost before = self.pending@;
            let ghost before_keep = self.keep@;
            let item = match self.pending.pop() {
                None => {
                    proof {
                        assert(items.skip(i).len() == 0);
                    }
                    return Err(Error::NoMoreRecords);
                },
                Some(item) => item,
            };
            let keep = self.keep.pop().unwrap();
            proof {
                assert(before.reverse() == items.skip(i));
                assert(before.len() > 0);
                assert(items.skip(i).len() == items.len() - i);
                assert(i < items.len());
                assert(before.reverse()[0] == before[before.len() - 1]);
                assert(items[i] == items.skip(i)[0]);
                assert(items[i] == item);
                assert(before_keep.reverse() == keeps.skip(i));
                assert(before_keep.reverse()[0] == before_keep[before_keep.len() - 1]);
                assert(keeps[i] == keeps.skip(i)[0]);
                assert(keeps[i] == keep);
                assert(self.pending@ == before.drop_last());
                lemma_reverse_drop_last(before);
                lemma_reverse_drop_last(before_keep);
                assert(items.skip(i).skip(1) =~= items.skip(i + 1));
                assert(keeps.skip(i).skip(1) =~= keeps.skip(i + 1));
                i = i + 1;
            }
            let rec = match item {
                Err(e) => {
                    return Err(e);
                },
                Ok(rec) => rec,
            };
            if !rec.is_mapped() {
                continue;
            }
            if rec.start >= self.end {
                return Err(Error::NoMoreRecords);
            }
            if !keep {
                continue;
            }
            if rec.bin > MAX_BIN {
                return Err(Error::Corrupted(Corruption::BinTooLarge));
            }
            let (min_start, max_end) = bin_to_region(rec.bin);
            if min_start >= self.start && max_end <= self.end {
                *record = rec;
                return Ok(());
            }
            assert(before[before.len() - 1] matches Ok(r) ==> r.wf());
            let rec_end = rec.calculate_end();
            if rec_end != -1 && rec_end < rec.start as i64 {
                return Err(Error::Corrupted(Corruption::EndBeforeStart));
            }
            if rec_end > self.start as i64 {
                *record = rec;
                return Ok(());
            }
        }
    }

    /// The next record of the region, `None` at its end.
    pub fn next(&mut self) -> (r: Option<Result<Record, Error>>)
        requires
            old(self).wf(),
        ensures
            final(self).wf(),
            ({
                let items = old(self).items();
                let keep = old(self).verdicts();
                let j = first_decisive(
                    items,
                    keep,
                    0,
                    old(self).start_spec(),
                    old(self).end_spec(),
                );
                match outcome_at(items, keep, j, old(self).start_spec(), old(self).end_spec()) {
                    Ok(()) => r == Some(Ok::<Record, Error>(items[j]->Ok_0)),
                    Err(Error::NoMoreRecords) => r is None,
                    Err(e) => r == Some(Err::<Record, Error>(e)),
                }
            }),
    {
        let mut record = Record::new();
        match self.read_into(&mut record) {
            Ok(()) => Some(Ok(record)),
            Err(Error::NoMoreRecords) => None,
            Err(e) => Some(Err(e)),
        }
    }
}

/// On a record whose bin is the one its span gives, the viewer hands out
/// exactly the records that start before the interval's end and end after
/// its start, and stops at the first record that starts at or after its end.
pub proof fn lemma_region_step_exact(r: Record, start: int, end: int)
    requires
        r.wf(),
        r.is_mapped_spec(),
        0 <= start <= end,
        r.start < r.end_spec() <= MAX_POSITION,
        r.bin == reg2bin_spec(r.start as int, r.end_spec()),
    ensures
        region_step(r, true, start, end) == Step::Accept <==> (r.start < end && r.end_spec()
            > start),
        region_step(r, true, start, end) == Step::Stop <==> r.start >= end,
        region_step(r, true, start, end) == Step::Skip <==> (r.start < end && r.end_spec()
            <= start),
{
    lemma_bin_region_covers(r.start as int, r.end_spec());
}

/// Does the record lie in `[start, end)` and pass the predicate?
pub open spec fn in_region(r: Record, keep: bool, start: int, end: int) -> bool {
    r.is_mapped_spec() && keep && r.start < end && r.end_spec() > start
}

/// The records from item `i` on that a sequential read keeps when it filters
/// by `in_region`.
pub open spec fn filtered_from(
    items: Seq<Result<Record, Error>>,
    keep: Seq<bool>,
    i: int,
    start: int,
    end: int,
) -> Seq<Record>
    decreases items.len() - i,
{
    if i < 0 || i >= items.len() {
        Seq::empty()
    } else {
        let rest = filtered_from(items, keep, i + 1, start, end);
        match items[i] {
            Ok(r) => if in_region(r, keep[i], start, end) {
                seq![r] + rest
            } else {
                rest
            },
            Err(_) => rest,
        }
    }
}

/// The records from item `i` on that a viewer hands out, one `read_into`
/// after another, until it reports an error or the end.
pub open spec fn viewer_from(
    items: Seq<Result<Record, Error>>,
    keep: Seq<bool>,
    i: int,
    start: int,
    end: int,
) -> Seq<Record>
    decreases items.len() - i,
{
    if i < 0 || i >= items.len() {
        Seq::empty()
    } else {
        match items[i] {
            Ok(r) => match region_step(r, keep[i], start, end) {
                Step::Skip => viewer_from(items, keep, i + 1, start, end),
                Step::Accept => seq![r] + viewer_from(items, keep, i + 1, start, end),
                _ => Seq::empty(),
            },
            Err(_) => Seq::empty(),
        }
    }
}

/// One `read_into` hands out the first record of `viewer_from`, and leaves
/// the rest of it to the following calls; an error ends it.
pub proof fn lemma_read_into_step(
    items: Seq<Result<Record, Error>>,
    keep: Seq<bool>,
    i: int,
    start: int,
    end: int,
)
    requires
        0 <= i <= items.len(),
        keep.len() == items.len(),
    ensures
        ({
            let j = first_decisive(items, keep, i, start, end);
            &&& outcome_at(items, keep, j, start, end) is Ok ==> viewer_from(
                items,
                keep,
                i,
                start,
                end,
            ) == seq![items[j]->Ok_0] + viewer_from(items, keep, j + 1, start, end)
            &&& outcome_at(items, keep, j, start, end) is Err ==> viewer_from(
                items,
                keep,
                i,
                start,
                end,
            ) == Seq::<Record>::empty()
        }),
    decreases items.len() - i,
{
    if i < items.len() {
        lemma_read_into_step(items, keep, i + 1, start, end);
    }
}

/// A mapped record whose bin is the one its span gives.
pub open spec fn consistent(r: Record) -> bool {
    &&& r.wf()
    &&& r.start < r.end_spec() <= MAX_POSITION
    &&& r.bin == reg2bin_spec(r.start as int, r.end_spec())
}

/// An error-free stream whose mapped records are consistent and sorted by start.
pub open spec fn sorted_stream(items: Seq<Result<Record, Error>>) -> bool {
    &&& forall|k: int| 0 <= k < items.len() ==> #[trigger] items[k] is Ok
    &&& forall|k: int|
        0 <= k < items.len() && (#[trigger] items[k])->Ok_0.is_mapped_spec() ==> consistent(
            items[k]->Ok_0,
        )
    &&& forall|a: int, b: int|
        0 <= a < b < items.len() && (#[trigger] items[a])->Ok_0.is_mapped_spec()
            && (#[trigger] items[b])->Ok_0.is_mapped_spec() ==> items[a]->Ok_0.start
            <= items[b]->Ok_0.start
}

proof fn lemma_filtered_empty(
    items: Seq<Result<Record, Error>>,
    keep: Seq<bool>,
    i: int,
    start: int,
    end: int,
)
    requires
        0 <= i,
        sorted_stream(items),
        forall|k: int|
            i <= k < items.len() && (#[trigger] items[k])->Ok_0.is_mapped_spec() ==> items[k]->Ok_0.start
                >= end,
    ensures
        filtered_from(items, keep, i, start, end) == Seq::<Record>::empty(),
    decreases items.len() - i,
{
    if i < items.len() {
        lemma_filtered_empty(items, keep, i + 1, start, end);
        assert(items[i] is Ok);
    }
}

/// On a sorted, consistent stream, a viewer over `[start, end)` hands out
/// exactly the records that a sequential read keeps when it filters by the
/// same interval and predicate, in the same order.
pub proof fn lemma_viewer_equals_filter(
    items: Seq<Result<Record, Error>>,
    keep: Seq<bool>,
    i: int,
    start: int,
    end: int,
)
    requires
        0 <= i,
        keep.len() == items.len(),
        0 <= start <= end,
        sorted_stream(items),
    ensures
        viewer_from(items, keep, i, start, end) == filtered_from(items, keep, i, start, end),
    decreases items.len() - i,
{
    if i < items.len() {
        lemma_viewer_equals_filter(items, keep, i + 1, start, end);
        assert(items[i] is Ok);
        let r = items[i]->Ok_0;
        if r.is_mapped_spec() {
            assert(consistent(r));
            lemma_region_step_exact(r, start, end);
            if r.start >= end {
                assert forall|k: int|
                    i + 1 <= k < items.len() && (#[trigger] items[k])->Ok_0.is_mapped_spec() implies items[k]->Ok_0.start
                    >= end by {
                    assert(items[i]->Ok_0.start <= items[k]->Ok_0.start);
                }
                lemma_filtered_empty(items, keep, i + 1, start, end);
            }
        }
    }
}

} // verus!
