//! Records: recording sessions whose true start times are known by hand.
//!
//! Times are fixed-point counts of microseconds.
use vstd::prelude::*;
use crate::Error;

verus! {

/// Width of one epoch of the sensor clock, in microseconds (100 seconds).
pub const EPOCH: i64 = 100_000_000;

/// The largest multiple of the epoch that does not exceed `t`.
pub open spec fn epoch_base(t: int) -> int {
    t - t % (EPOCH as int)
}

/// A timestamp `t` of a file whose first timestamp is `first`, moved onto the time base of a
/// record that started at `start`.
pub open spec fn align(t: int, first: int, start: int) -> int {
    t - epoch_base(first) + epoch_base(start)
}

/// The aligned timestamps of one record, in file order.
pub open spec fn aligned_record(ts: Seq<i64>, start: i64) -> Seq<int> {
    Seq::new(ts.len(), |j: int| align(ts[j] as int, ts[0] as int, start as int))
}

/// The aligned timestamps of the first `n` records, flattened by record.
pub open spec fn aligned_upto(starts: Seq<i64>, tss: Seq<Seq<i64>>, n: nat) -> Seq<int>
    decreases n,
{
    if n == 0 {
        seq![]
    } else {
        aligned_upto(starts, tss, (n - 1) as nat) + aligned_record(tss[n - 1], starts[n - 1])
    }
}

/// The aligned timestamps of all records.
pub open spec fn aligned_all(starts: Seq<i64>, tss: Seq<Seq<i64>>) -> Seq<int> {
    aligned_upto(starts, tss, tss.len())
}

/// Whether every aligned timestamp can be held in an `i64`.
pub open spec fn aligned_fit(starts: Seq<i64>, tss: Seq<Seq<i64>>) -> bool {
    forall|i: int, j: int|
        0 <= i < tss.len() && i < starts.len() && 0 <= j < tss[i].len() ==> i64::MIN <= align(
            #[trigger] tss[i][j] as int,
            tss[i][0] as int,
            starts[i] as int,
        ) <= i64::MAX
}

/// Whether some timestamp sequence is empty.
pub open spec fn some_empty(tss: Seq<Seq<i64>>) -> bool {
    exists|i: int| 0 <= i < tss.len() && #[trigger] tss[i].len() == 0
}

/// What aligning `tss` with the record start times `starts` gives.
pub open spec fn adjust_result(starts: Seq<i64>, tss: Seq<Seq<i64>>, r: Result<Seq<int>, Error>) -> bool {
    if starts.len() != tss.len() {
        r == Err::<Seq<int>, Error>(
            Error::RecordCountMismatch { timestamps: tss.len() as usize, records: starts.len() as usize },
        )
    } else if some_empty(tss) {
        r == Err::<Seq<int>, Error>(Error::NoTimestamps)
    } else {
        r == Ok::<Seq<int>, Error>(aligned_all(starts, tss))
    }
}

/// Views a result of timestamps as a result of mathematical integers.
pub open spec fn as_ints(r: Result<Vec<i64>, Error>) -> Result<Seq<int>, Error> {
    match r {
        Ok(v) => Ok(v@.map_values(|t: i64| t as int)),
        Err(e) => Err(e),
    }
}

/// The timestamp sequences held by a vector of vectors.
pub open spec fn seqs_of(v: Seq<Vec<i64>>) -> Seq<Seq<i64>> {
    v.map_values(|t: Vec<i64>| t@)
}

/// Aligning a record whose start time lies in the same epoch as its first timestamp gives
/// back its timestamps unchanged; in particular a single timestamp aligned with itself as the
/// start time stays what it was.
pub proof fn align_within_epoch_is_identity(start: i64, ts: Seq<i64>)
    requires
        ts.len() > 0,
        epoch_base(start as int) == epoch_base(ts[0] as int),
    ensures
        adjust_result(seq![start], seq![ts], Ok(ts.map_values(|t: i64| t as int))),
{
    let tss = seq![ts];
    assert(!some_empty(tss)) by {
        assert forall|i: int| 0 <= i < tss.len() implies #[trigger] tss[i].len() != 0 by {
            assert(tss[i] == ts);
        }
    }
    assert(aligned_upto(seq![start], tss, 0) =~= seq![]);
    assert(aligned_all(seq![start], tss) =~= ts.map_values(|t: i64| t as int));
}

/// Configuration for records.
pub struct Config {
    /// The start time of each record, in microseconds.
    pub start_times: Vec<i64>,
}

/// The epoch base of `t`.
fn base_of(t: i64) -> (r: i128)
    ensures
        r == epoch_base(t as int),
        r <= t,
        t - r < EPOCH,
{
    let e = EPOCH as i128;
    let t = t as i128;
    let m = t % e;
    let m = if m < 0 { m + e } else { m };
    assert(m == (t as int) % (EPOCH as int));
    t - m
}

impl Config {
    /// Whether every timestamp, once aligned with this configuration, fits in an `i64`.
    pub fn aligned_timestamps_fit(&self, timestamps: &Vec<Vec<i64>>) -> (r: bool)
        ensures
            r == aligned_fit(self.start_times@, seqs_of(timestamps@)),
    {
        let ghost tss = seqs_of(timestamps@);
        let mut i: usize = 0;
        while i < timestamps.len() && i < self.start_times.len()
            invariant
                i <= timestamps.len(),
                tss == seqs_of(timestamps@),
                forall|a: int, b: int|
                    0 <= a < i && 0 <= b < tss[a].len() ==> i64::MIN <= align(
                        #[trigger] tss[a][b] as int,
                        tss[a][0] as int,
                        self.start_times@[a] as int,
                    ) <= i64::MAX,
            decreases timestamps.len() - i,
        {
            let ts = &timestamps[i];
            if ts.len() > 0 {
                let tb = base_of(ts[0]);
                let rb = base_of(self.start_times[i]);
                let mut j: usize = 0;
                while j < ts.len()
                    invariant
                        i < timestamps.len(),
                        i < self.start_times.len(),
                        ts@ == tss[i as int],
                        0 < ts.len(),
                        tb == epoch_base(ts@[0] as int),
                        rb == epoch_base(self.start_times@[i as int] as int),
                        j <= ts.len(),
                        tss == seqs_of(timestamps@),
                        forall|b: int| 0 <= b < j ==> i64::MIN <= align(
                            #[trigger] tss[i as int][b] as int,
                            tss[i as int][0] as int,
                            self.start_times@[i as int] as int,
                        ) <= i64::MAX,
                    decreases ts.len() - j,
                {
                    let a = ts[j] as i128 - tb + rb;
                    if a < i64::MIN as i128 || a > i64::MAX as i128 {
                        return false;
                    }
                    j = j + 1;
                }
            }
            i = i + 1;
        }
        true
    }

    /// Moves every timestamp onto the time base of its record and flattens the result by
    /// record.
    ///
    /// The timestamps of record `i` are `timestamps[i]`; each `t` of them becomes
    /// `t - base(timestamps[i][0]) + base(start_times[i])`, where `base` rounds down to a
    /// multiple of the epoch. The record counts must agree and no sequence may be empty.
    pub fn adjust_timestamps(&self, timestamps: &Vec<Vec<i64>>) -> (r: Result<Vec<i64>, Error>)
        requires
            aligned_fit(self.start_times@, seqs_of(timestamps@)),
        ensures
            adjust_result(self.start_times@, seqs_of(timestamps@), as_ints(r)),
    {
        let ghost starts = self.start_times@;
        let ghost tss = seqs_of(timestamps@);
        if self.start_times.len() != timestamps.len() {
            return Err(
                Error::RecordCountMismatch {
                    timestamps: timestamps.len(),
                    records: self.start_times.len(),
                },
            );
        }
        let mut i: usize = 0;
        while i < timestamps.len()
            invariant
                i <= timestamps.len(),
                starts == self.start_times@,
                starts.len() == tss.len(),
                tss == seqs_of(timestamps@),
                forall|k: int| 0 <= k < i ==> tss[k].len() > 0,
            decreases timestamps.len() - i,
        {
            if timestamps[i].len() == 0 {
                assert(tss[i as int].len() == 0);
                return Err(Error::NoTimestamps);
            }
            i = i + 1;
        }
        let mut out: Vec<i64> = Vec::new();
        i = 0;
        while i < timestamps.len()
            invariant
                i <= timestamps.len(),
                starts.len() == tss.len(),
                starts == self.start_times@,
                tss == seqs_of(timestamps@),
                forall|k: int| 0 <= k < tss.len() ==> tss[k].len() > 0,
                aligned_fit(starts, tss),
                out@.map_values(|t: i64| t as int) == aligned_upto(starts, tss, i as nat),
            decreases timestamps.len() - i,
        {
            let ts = &timestamps[i];
            assert(ts@ == tss[i as int]);
            let tb = base_of(ts[0]);
            let rb = base_of(self.start_times[i]);
            let ghost before = out@.map_values(|t: i64| t as int);
            let ghost rec = aligned_record(tss[i as int], starts[i as int]);
            let mut j: usize = 0;
            while j < ts.len()
                invariant
                    i < timestamps.len(),
                    starts.len() == tss.len(),
                    tss == seqs_of(timestamps@),
                    ts@ == tss[i as int],
                    0 < ts.len(),
                    tb == epoch_base(ts@[0] as int),
                    rb == epoch_base(starts[i as int] as int),
                    rec == aligned_record(tss[i as int], starts[i as int]),
                    aligned_fit(starts, tss),
                    j <= ts.len(),
                    out@.map_values(|t: i64| t as int) == before + rec.take(j as int),
                decreases ts.len() - j,
            {
                let a = ts[j] as i128 - tb + rb;
                assert(i64::MIN <= align(tss[i as int][j as int] as int, tss[i as int][0] as int, starts[i as int] as int));
                proof {
                    assert(a == rec[j as int]);
                }
                let ghost prev = out@;
                out.push(a as i64);
                assert(out@ == prev.push(a as i64));
                assert(out@.map_values(|t: i64| t as int) =~= prev.map_values(|t: i64| t as int).push(
                    a as int,
                ));
                assert(rec.take(j + 1) =~= rec.take(j as int).push(rec[j as int]));
                assert(out@.map_values(|t: i64| t as int) =~= before + rec.take(j + 1));
                j = j + 1;
            }
            assert(rec.take(ts.len() as int) =~= rec);
            i = i + 1;
        }
        Ok(out)
    }
}

} // verus!
