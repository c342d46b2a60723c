//! Bookkeeping of the evaluation commands: which frames are compared with
//! which, and when a comparison is refused.
use vstd::prelude::*;

verus! {

/// One row of the metrics report: frame number `frame` (counting from 1)
/// compares prediction `pred` with reference `gt`; flicker is measured
/// against prediction `previous`, when there is one.
#[derive(Clone, Copy, Debug, PartialEq, Eq, Structural)]
pub struct FrameJob {
    pub frame: usize,
    pub pred: usize,
    pub gt: usize,
    pub previous: Option<usize>,
}

/// The rows of a metrics report and the divisor of its averages.
pub struct MetricsPlan {
    pub jobs: Vec<FrameJob>,
    pub average_divisor: usize,
}

/// A metrics run refused: before any frame is read, or at the first frame
/// whose two images differ in size.
#[derive(Clone, Copy, Debug, PartialEq, Eq, Structural)]
pub enum MetricsError {
    /// The two directories hold different numbers of frames.
    FrameCountMismatch { pred: usize, gt: usize },
    /// Frame number `frame` (counting from 1) is the first whose predicted
    /// and reference images differ in width or height.
    DimensionMismatch { frame: usize },
}

/// The `i`-th row of a metrics report.
pub open spec fn frame_job(i: int) -> FrameJob {
    FrameJob {
        frame: (i + 1) as usize,
        pred: i as usize,
        gt: i as usize,
        previous: if i == 0 {
            None
        } else {
            Some((i - 1) as usize)
        },
    }
}

/// Plans the comparison of the sorted predicted frames with the sorted
/// reference frames: refused when their numbers differ, otherwise frame `i`
/// of one directory against frame `i` of the other, each prediction also
/// against the one before it, and averages over the number of frames (at
/// least one).
pub fn metrics_dirs(pred_frames: usize, gt_frames: usize) -> (r: Result<MetricsPlan, MetricsError>)
    ensures
        r is Err <==> pred_frames != gt_frames,
        r is Err ==> r->Err_0 == (MetricsError::FrameCountMismatch { pred: pred_frames, gt: gt_frames }),
        r is Ok ==> r->Ok_0.jobs@ == Seq::new(pred_frames as nat, |i: int| frame_job(i)),
        r is Ok ==> r->Ok_0.average_divisor == (if pred_frames == 0 {
            1
        } else {
            pred_frames
        }),
{
    if pred_frames != gt_frames {
        return Err(MetricsError::FrameCountMismatch { pred: pred_frames, gt: gt_frames });
    }
    let mut jobs: Vec<FrameJob> = Vec::with_capacity(pred_frames);
    let mut i: usize = 0;
    while i < pred_frames
        invariant
            i <= pred_frames,
            jobs@ == Seq::new(i as nat, |k: int| frame_job(k)),
        decreases pred_frames - i,
    {
        let previous = if i == 0 {
            None
        } else {
            Some(i - 1)
        };
        jobs.push(FrameJob { frame: i + 1, pred: i, gt: i, previous });
        proof {
            assert(jobs@ =~= Seq::new((i + 1) as nat, |k: int| frame_job(k)));
        }
        i = i + 1;
    }
    let average_divisor = if pred_frames == 0 {
        1
    } else {
        pred_frames
    };
    Ok(MetricsPlan { jobs, average_divisor })
}

/// Frame `i` (counting from 0) of the report is the first whose predicted
/// and reference sizes (width, height) differ.
pub open spec fn is_first_size_mismatch(pred: Seq<(usize, usize)>, gt: Seq<(usize, usize)>, i: int) -> bool {
    &&& 0 <= i < pred.len()
    &&& pred[i] != gt[i]
    &&& forall|j: int| 0 <= j < i ==> pred[j] == gt[j]
}

/// Compares the sizes of the frames of a metrics report read so far, frame
/// by frame: refused, naming the frame (counting from 1), at the first frame
/// whose predicted and reference images differ in width or height.
pub fn first_size_mismatch(pred_sizes: &Vec<(usize, usize)>, gt_sizes: &Vec<(usize, usize)>) -> (r: Result<(), MetricsError>)
    requires
        pred_sizes.len() == gt_sizes.len(),
    ensures
        r is Ok <==> (forall|j: int| 0 <= j < pred_sizes.len() ==> pred_sizes@[j] == gt_sizes@[j]),
        r is Err ==> (r->Err_0 matches MetricsError::DimensionMismatch { frame } && is_first_size_mismatch(
            pred_sizes@,
            gt_sizes@,
            frame - 1,
        )),
{
    let mut i: usize = 0;
    while i < pred_sizes.len()
        invariant
            pred_sizes.len() == gt_sizes.len(),
            i <= pred_sizes.len(),
            forall|j: int| 0 <= j < i ==> pred_sizes@[j] == gt_sizes@[j],
        decreases pred_sizes.len() - i,
    {
        let (pw, ph) = pred_sizes[i];
        let (gw, gh) = gt_sizes[i];
        if pw != gw || ph != gh {
            return Err(MetricsError::DimensionMismatch { frame: i + 1 });
        }
        i = i + 1;
    }
    Ok(())
}

/// Two images that should be compared have different sizes.
#[derive(Clone, Copy, Debug, PartialEq, Eq, Structural)]
pub struct DimensionMismatch {
    pub first_width: usize,
    pub first_height: usize,
    pub second_width: usize,
    pub second_height: usize,
}

/// Refuses to compare images of different sizes.
pub fn ensure_same_dims(
    first_width: usize,
    first_height: usize,
    second_width: usize,
    second_height: usize,
) -> (r: Result<(), DimensionMismatch>)
    ensures
        r is Ok <==> (first_width == second_width && first_height == second_height),
        r is Err ==> r->Err_0 == (DimensionMismatch {
            first_width,
            first_height,
            second_width,
            second_height,
        }),
{
    if first_width != second_width || first_height != second_height {
        Err(DimensionMismatch { first_width, first_height, second_width, second_height })
    } else {
        Ok(())
    }
}

/// How many of `len` items are left once at most `limit` are kept (as
/// `Vec::truncate` leaves them).
pub open spec fn kept(len: int, limit: Option<usize>) -> int {
    match limit {
        Some(l) => if l < len {
            l as int
        } else {
            len
        },
        None => len,
    }
}

/// An evaluation refused because no image or frame is left to evaluate.
#[derive(Clone, Copy, Debug, PartialEq, Eq, Structural)]
pub enum SelectionError {
    NothingSelected,
}

/// How many of `len` items are left once at most `limit` are kept.
pub fn kept_count(len: usize, limit: Option<usize>) -> (n: usize)
    ensures
        n == kept(len as int, limit),
{
    match limit {
        Some(l) => if l < len {
            l
        } else {
            len
        },
        None => len,
    }
}

/// Keeps the first `limit` of `len` items (all of them without a limit);
/// refused when none is left.
pub fn select_leading(len: usize, limit: Option<usize>) -> (r: Result<usize, SelectionError>)
    ensures
        r is Ok <==> kept(len as int, limit) > 0,
        r is Ok ==> r->Ok_0 == kept(len as int, limit),
        r is Err ==> r->Err_0 == SelectionError::NothingSelected,
{
    let n = kept_count(len, limit);
    if n == 0 {
        Err(SelectionError::NothingSelected)
    } else {
        Ok(n)
    }
}

/// One frame of a batched neural evaluation: frame `index` of scene `scene`,
/// reported as frame number `number` (counting from 1); its flicker is
/// measured against the output of row `previous` of the batch, the frame
/// before it in the same scene, when there is one.
#[derive(Clone, Copy, Debug, PartialEq, Eq, Structural)]
pub struct BatchFrame {
    pub scene: usize,
    pub index: usize,
    pub number: usize,
    pub previous: Option<usize>,
}

/// The frames of a batched neural evaluation, scene after scene, and the
/// scenes that keep at least one frame (in increasing order, each once).
pub struct BatchPlan {
    pub frames: Vec<BatchFrame>,
    pub scenes: Vec<usize>,
}

/// Number of batch rows of the scenes before scene `g`.
pub open spec fn rows_before(frames: Seq<usize>, limit: Option<usize>, g: int) -> int
    decreases g,
{
    if g <= 0 {
        0
    } else {
        rows_before(frames, limit, g - 1) + kept(frames[g - 1] as int, limit)
    }
}

/// The batch row of frame `k` of scene `g`, whose scene starts at row `start`.
pub open spec fn batch_frame(g: int, k: int, start: int) -> BatchFrame {
    BatchFrame {
        scene: g as usize,
        index: k as usize,
        number: (k + 1) as usize,
        previous: if k == 0 {
            None
        } else {
            Some((start + k - 1) as usize)
        },
    }
}

/// The scenes before scene `g` that keep at least one frame, in order.
pub open spec fn scenes_with_frames(frames: Seq<usize>, limit: Option<usize>, g: int) -> Seq<usize>
    decreases g,
{
    if g <= 0 {
        Seq::empty()
    } else if kept(frames[g - 1] as int, limit) > 0 {
        scenes_with_frames(frames, limit, g - 1).push((g - 1) as usize)
    } else {
        scenes_with_frames(frames, limit, g - 1)
    }
}

proof fn lemma_rows_before_monotone(frames: Seq<usize>, limit: Option<usize>, g1: int, g2: int)
    requires
        0 <= g1 <= g2,
    ensures
        rows_before(frames, limit, g1) <= rows_before(frames, limit, g2),
    decreases g2 - g1,
{
    if g1 < g2 {
        lemma_rows_before_monotone(frames, limit, g1, g2 - 1);
    }
}

/// Plans a batched neural evaluation of scenes holding `frames_per_scene[g]`
/// frames each: the first `max_frames` frames of every scene (all of them
/// without a limit), scene after scene, numbered from 1 within their scene;
/// refused when no frame is selected.
pub fn plan_neural_batch(frames_per_scene: &Vec<usize>, max_frames: Option<usize>) -> (r: Result<BatchPlan, SelectionError>)
    requires
        rows_before(frames_per_scene@, max_frames, frames_per_scene.len() as int) <= usize::MAX,
    ensures
        r is Err <==> rows_before(frames_per_scene@, max_frames, frames_per_scene.len() as int) == 0,
        r is Err ==> r->Err_0 == SelectionError::NothingSelected,
        r is Ok ==> r->Ok_0.frames.len() == rows_before(frames_per_scene@, max_frames, frames_per_scene.len() as int),
        r is Ok ==> forall|g: int, k: int|
            0 <= g < frames_per_scene.len() && 0 <= k < kept(frames_per_scene[g] as int, max_frames)
                ==> r->Ok_0.frames@[rows_before(frames_per_scene@, max_frames, g) + k] == batch_frame(
                g,
                k,
                rows_before(frames_per_scene@, max_frames, g),
            ),
        r is Ok ==> r->Ok_0.scenes@ == scenes_with_frames(frames_per_scene@, max_frames, frames_per_scene.len() as int),
{
    let ghost fs = frames_per_scene@;
    let n = frames_per_scene.len();
    let mut rows: Vec<BatchFrame> = Vec::new();
    let mut scenes: Vec<usize> = Vec::new();
    let mut g: usize = 0;
    while g < n
        invariant
            n == frames_per_scene.len(),
            fs == frames_per_scene@,
            g <= n,
            rows_before(fs, max_frames, n as int) <= usize::MAX,
            rows.len() == rows_before(fs, max_frames, g as int),
            forall|g2: int, k: int|
                0 <= g2 < g && 0 <= k < kept(fs[g2] as int, max_frames)
                    ==> rows@[rows_before(fs, max_frames, g2) + k] == batch_frame(
                    g2,
                    k,
                    rows_before(fs, max_frames, g2),
                ),
            scenes@ == scenes_with_frames(fs, max_frames, g as int),
        decreases n - g,
    {
        let count = kept_count(frames_per_scene[g], max_frames);
        let start = rows.len();
        proof {
            lemma_rows_before_monotone(fs, max_frames, g + 1, n as int);
            lemma_rows_before_monotone(fs, max_frames, g as int, n as int);
        }
        let mut k: usize = 0;
        while k < count
            invariant
                n == frames_per_scene.len(),
                fs == frames_per_scene@,
                g < n,
                count == kept(fs[g as int] as int, max_frames),
                start == rows_before(fs, max_frames, g as int),
                start + count <= usize::MAX,
                k <= count,
                rows.len() == start + k,
                forall|g2: int, k2: int|
                    0 <= g2 < g && 0 <= k2 < kept(fs[g2] as int, max_frames)
                        ==> rows@[rows_before(fs, max_frames, g2) + k2] == batch_frame(
                        g2,
                        k2,
                        rows_before(fs, max_frames, g2),
                    ),
                forall|k2: int| 0 <= k2 < k ==> rows@[start + k2] == batch_frame(g as int, k2, start as int),
            decreases count - k,
        {
            let previous = if k == 0 {
                None
            } else {
                Some(start + k - 1)
            };
            let ghost before = rows@;
            rows.push(BatchFrame { scene: g, index: k, number: k + 1, previous });
            proof {
                assert forall|g2: int, k2: int|
                    0 <= g2 < g && 0 <= k2 < kept(fs[g2] as int, max_frames) implies rows@[rows_before(fs, max_frames, g2) + k2]
                        == batch_frame(g2, k2, rows_before(fs, max_frames, g2)) by {
                    lemma_rows_before_monotone(fs, max_frames, g2 + 1, g as int);
                    assert(rows_before(fs, max_frames, g2 + 1) == rows_before(fs, max_frames, g2) + kept(
                        fs[g2] as int,
                        max_frames,
                    ));
                    lemma_rows_before_monotone(fs, max_frames, 0, g2);
                    assert(rows@[rows_before(fs, max_frames, g2) + k2] == before[rows_before(fs, max_frames, g2) + k2]);
                }
                assert forall|k2: int| 0 <= k2 < k + 1 implies rows@[start + k2] == batch_frame(g as int, k2, start as int) by {
                    if k2 < k {
                        assert(rows@[start + k2] == before[start + k2]);
                    }
                }
            }
            k = k + 1;
        }
        if count > 0 {
            scenes.push(g);
        }
        g = g + 1;
    }
    if rows.len() == 0 {
        return Err(SelectionError::NothingSelected);
    }
    Ok(BatchPlan { frames: rows, scenes })
}

/// Rows of a metrics report are numbered from 1; row `i` compares prediction
/// `i` with reference `i`, and measures flicker against prediction `i - 1`
/// (against none on the first row).
pub proof fn lemma_metrics_rows(i: int)
    requires
        0 <= i < usize::MAX,
    ensures
        frame_job(i).frame == i + 1,
        frame_job(i).pred == i,
        frame_job(i).gt == i,
        frame_job(i).previous is None <==> i == 0,
        i > 0 ==> frame_job(i).previous == Some((i - 1) as usize),
{
}

/// Keeping at most `limit` of `len` items keeps `len` of them without a
/// limit, and otherwise the smaller of `len` and the limit.
pub proof fn lemma_kept(len: int, limit: Option<usize>)
    requires
        len >= 0,
    ensures
        0 <= kept(len, limit) <= len,
        limit is None ==> kept(len, limit) == len,
        limit is Some ==> kept(len, limit) <= limit->Some_0 && (kept(len, limit) == len || kept(len, limit)
            == limit->Some_0),
{
}

/// Within a scene, batch rows are numbered from 1 in frame order, and each
/// row but the scene's first measures flicker against the row just before
/// it.
pub proof fn lemma_batch_rows(g: int, k: int, start: int)
    requires
        0 <= g <= usize::MAX,
        0 <= k < usize::MAX,
        0 <= start,
        start + k <= usize::MAX,
    ensures
        batch_frame(g, k, start).scene == g,
        batch_frame(g, k, start).index == k,
        batch_frame(g, k, start).number == k + 1,
        batch_frame(g, k, start).previous is None <==> k == 0,
        k > 0 ==> batch_frame(g, k, start).previous == Some((start + k - 1) as usize),
{
}

/// Without a limit every frame of every scene is in the batch; with one, no
/// scene contributes more than the limit.
pub proof fn lemma_rows_before_bounds(frames: Seq<usize>, limit: Option<usize>, g: int)
    requires
        0 <= g <= frames.len(),
    ensures
        rows_before(frames, limit, g) <= rows_before(frames, None, g),
        limit is Some ==> rows_before(frames, limit, g) <= g * limit->Some_0,
        0 <= rows_before(frames, limit, g),
    decreases g,
{
    if g > 0 {
        lemma_rows_before_bounds(frames, limit, g - 1);
        if limit is Some {
            assert(g * limit->Some_0 == (g - 1) * limit->Some_0 + limit->Some_0) by (nonlinear_arith);
        }
    } else if limit is Some {
        assert(0 * limit->Some_0 == 0);
    }
}

} // verus!
