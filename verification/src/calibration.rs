//! The BPM to intensity calibration table: beats per minute of the measured
//! motion against the intensity (0 to 100) the curve takes at that rate.

use vstd::prelude::*;

verus! {

/// One point of the calibration table.
#[derive(Clone, Copy, Debug, PartialEq, Eq, Structural)]
pub struct BpmIntensityPoint {
    pub bpm: u64,
    pub intensity: u64,
}

/// The calibration table, as (bpm, intensity) pairs in increasing order.
pub open spec fn bpm_intensity_map() -> Seq<(int, int)> {
    seq![
        (0int, 0int),
        (42, 10),
        (66, 20),
        (90, 30),
        (116, 40),
        (140, 50),
        (160, 60),
        (182, 70),
        (218, 80),
        (245, 90),
        (270, 100),
    ]
}

/// `points` holds exactly the calibration table.
pub open spec fn is_bpm_intensity_map(points: Seq<BpmIntensityPoint>) -> bool {
    &&& points.len() == bpm_intensity_map().len()
    &&& forall|k: int|
        0 <= k < points.len() ==> ((#[trigger] points[k]).bpm as int, points[k].intensity as int)
            == bpm_intensity_map()[k]
}

fn point(bpm: u64, intensity: u64) -> (p: BpmIntensityPoint)
    ensures
        p.bpm == bpm,
        p.intensity == intensity,
{
    BpmIntensityPoint { bpm, intensity }
}

/// The calibration table, as served to clients.
pub fn get_bpm_intensity_mapping() -> (mapping: Vec<BpmIntensityPoint>)
    ensures
        is_bpm_intensity_map(mapping@),
{
    let mut mapping: Vec<BpmIntensityPoint> = Vec::new();
    mapping.push(point(0, 0));
    mapping.push(point(42, 10));
    mapping.push(point(66, 20));
    mapping.push(point(90, 30));
    mapping.push(point(116, 40));
    mapping.push(point(140, 50));
    mapping.push(point(160, 60));
    mapping.push(point(182, 70));
    mapping.push(point(218, 80));
    mapping.push(point(245, 90));
    mapping.push(point(270, 100));
    assert(is_bpm_intensity_map(mapping@));
    mapping
}

/// Law: both columns of the calibration table strictly increase, so a
/// faster motion never maps to a lower intensity.
pub proof fn lemma_bpm_intensity_map_increasing()
    ensures
        forall|i: int, j: int|
            0 <= i < j < bpm_intensity_map().len() ==> (#[trigger] bpm_intensity_map()[i]).0
                < (#[trigger] bpm_intensity_map()[j]).0 && bpm_intensity_map()[i].1
                < bpm_intensity_map()[j].1,
        bpm_intensity_map()[0] == (0int, 0int),
        bpm_intensity_map().last() == (270int, 100int),
{
    let m = bpm_intensity_map();
    assert forall|k: int| 0 <= k < m.len() - 1 implies (#[trigger] m[k]).0 < m[k + 1].0 && m[k].1
        < m[k + 1].1 by {}
    assert forall|i: int, j: int| 0 <= i < j < m.len() implies (#[trigger] m[i]).0 < (
    #[trigger] m[j]).0 && m[i].1 < m[j].1 by {
        lemma_increasing_chain(m, i, j);
    }
}

proof fn lemma_increasing_chain(m: Seq<(int, int)>, i: int, j: int)
    requires
        0 <= i < j < m.len(),
        forall|k: int| 0 <= k < m.len() - 1 ==> (#[trigger] m[k]).0 < m[k + 1].0 && m[k].1 < m[k + 1].1,
    ensures
        m[i].0 < m[j].0 && m[i].1 < m[j].1,
    decreases j - i,
{
    if j > i + 1 {
        lemma_increasing_chain(m, i + 1, j);
        assert(m[i].0 < m[i + 1].0);
    }
}

/// The table segment that holds a BPM value strictly between the first and
/// last table entries, found from its ceiling `bpm_ceil`: the index `i` with
/// `bpm[i] < bpm_ceil <= bpm[i + 1]`. For a BPM `b` with ceiling `c`,
/// `bpm[i] < b <= bpm[i + 1]` holds exactly when `bpm[i] < c <= bpm[i + 1]`
/// (the table entries are whole numbers), so `i` is the first segment whose
/// closed range holds `b`.
pub fn bpm_segment(bpm_ceil: u64) -> (i: usize)
    requires
        bpm_intensity_map()[0].0 < bpm_ceil <= bpm_intensity_map().last().0,
    ensures
        i + 1 < bpm_intensity_map().len(),
        bpm_intensity_map()[i as int].0 < bpm_ceil <= bpm_intensity_map()[i + 1].0,
{
    let mapping = get_bpm_intensity_mapping();
    let n = mapping.len();
    let mut i: usize = 0;
    while i + 1 < n
        invariant
            is_bpm_intensity_map(mapping@),
            n == mapping.len(),
            i + 1 <= n,
            mapping@[i as int].bpm < bpm_ceil,
        decreases n - i,
    {
        if bpm_ceil <= mapping[i + 1].bpm {
            return i;
        }
        i += 1;
    }
    assert(mapping@[n - 1].bpm as int == bpm_intensity_map().last().0);
    i
}

} // verus!
