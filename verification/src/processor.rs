//! The per-file pipeline: inspect the container, fix each ASS/SSA track, remux.
//!
//! The pipeline decides; the caller does the work. After each step the caller reports
//! what happened as an [`Event`] and reads the next thing to do from the pipeline's
//! [`Stage`], until the stage is `Finished`.
use vstd::prelude::*;
use vstd::string::StringExecFns;

use crate::mkv::{AssTrack, ModifiedTrack};
use crate::subtitles::{fix_script, process_ass_content, SubtitleOutcome};
use crate::text::{decimal, push_decimal};

verus! {

/// Fixed set of reasons why an MKV file processing was skipped.
#[derive(Debug, Clone, Copy, PartialEq, Eq)]
pub enum SkipReason {
    NoAssTracks,
    AlreadyCompliant,
}

/// The text shown for a skip reason.
pub open spec fn skip_message(r: SkipReason) -> Seq<char> {
    match r {
        SkipReason::NoAssTracks => "No ASS/SSA tracks found"@,
        SkipReason::AlreadyCompliant => "Already compliant"@,
    }
}

impl SkipReason {
    /// The text shown for this reason.
    pub fn to_string(&self) -> (s: String)
        ensures
            s@ == skip_message(*self),
    {
        match self {
            SkipReason::NoAssTracks => String::from_str("No ASS/SSA tracks found"),
            SkipReason::AlreadyCompliant => String::from_str("Already compliant"),
        }
    }
}

/// Why a file could not be processed: what the tool was doing, and the cause.
#[derive(Debug)]
pub struct Failure {
    pub context: String,
    pub cause: String,
}

impl Failure {
    /// The outermost message: what the tool was doing.
    pub fn to_string(&self) -> (s: String)
        ensures
            s@ == self.context@,
    {
        self.context.clone()
    }

    /// The whole chain: `context: cause`.
    pub fn full_message(&self) -> (s: String)
        ensures
            s@ == self.context@ + ": "@ + self.cause@,
    {
        let mut s = self.context.clone();
        s.append(": ");
        s.append(self.cause.as_str());
        s
    }
}

/// Outcome of processing an individual MKV file.
#[derive(Debug)]
pub enum FileOutcome {
    Skipped(SkipReason),
    Modified { tracks_fixed: usize },
    Failed(Failure),
}

/// Summary report for a single processed file.
pub struct FileReport {
    pub path: String,
    pub outcome: FileOutcome,
}

/// Where a file's pipeline stands, and so what the caller does next.
pub enum Stage {
    /// List the tracks of the container (`mkvmerge -J`).
    Inspecting,
    /// Extract track `i` of the list to a temporary file.
    Extracting(usize),
    /// Read the extracted text of track `i`.
    Reading(usize),
    /// Write this fixed text over the extracted file of track `i`.
    Writing(usize, String),
    /// Remux the container with the fixed tracks.
    Repacking,
    /// Nothing left to do.
    Finished(FileOutcome),
}

/// What the caller reports after doing what the stage asked. Errors are reported as
/// their message.
pub enum Event {
    Inspected(Result<Vec<AssTrack>, String>),
    Extracted(Result<(), String>),
    ContentRead(Result<String, String>),
    Written(Result<(), String>),
    Repacked(Result<(), String>),
}

/// The processing of one file.
pub struct FilePipeline {
    /// The file, as shown in messages.
    pub path: String,
    /// Fix the tracks but leave the container alone.
    pub dry_run: bool,
    /// The ASS/SSA tracks found in the container.
    pub tracks: Vec<AssTrack>,
    /// Positions in `tracks` of the tracks fixed so far, in order.
    pub fixed: Vec<usize>,
    pub stage: Stage,
}

/// Context of a failed inspection.
pub open spec fn inspect_context(path: Seq<char>) -> Seq<char> {
    "Failed to inspect subtitles for "@ + path
}

/// Context of a failed extraction.
pub open spec fn extract_context(id: u64, path: Seq<char>) -> Seq<char> {
    "Failed to extract track "@ + decimal(id as nat) + " from "@ + path
}

/// Context of a failed read of the extracted text.
pub open spec fn read_context(id: u64) -> Seq<char> {
    "Failed to read extracted ASS content for track "@ + decimal(id as nat)
}

/// Context of a failed write of the fixed text.
pub open spec fn write_context(id: u64) -> Seq<char> {
    "Failed to write updated ASS content for track "@ + decimal(id as nat)
}

/// Context of a failed remux.
pub open spec fn repack_context(path: Seq<char>) -> Seq<char> {
    "Failed to repack MKV file "@ + path
}

/// The pipeline ended in failure with this context and cause.
pub open spec fn failed_with(p: FilePipeline, context: Seq<char>, cause: Seq<char>) -> bool {
    p.stage matches Stage::Finished(FileOutcome::Failed(f)) && f.context@ == context && f.cause@
        == cause
}

/// The stage after the tracks up to position `i` are done: the next track, or the end of
/// the tracks. With no track fixed the file is already compliant; in a dry run the fixed
/// tracks are only counted; otherwise the container is remuxed.
pub open spec fn after_track(p: FilePipeline, i: int, fixed: usize) -> bool {
    if i + 1 < p.tracks.len() {
        p.stage == Stage::Extracting((i + 1) as usize)
    } else if fixed == 0 {
        p.stage == Stage::Finished(FileOutcome::Skipped(SkipReason::AlreadyCompliant))
    } else if p.dry_run {
        p.stage == Stage::Finished(FileOutcome::Modified { tracks_fixed: fixed })
    } else {
        p.stage == Stage::Repacking
    }
}

/// One step of the pipeline: how `n` follows from `o` once `ev` is reported. An event
/// that does not answer the current stage changes nothing.
pub open spec fn steps_to(o: FilePipeline, ev: Event, n: FilePipeline) -> bool {
    &&& n.path == o.path
    &&& n.dry_run == o.dry_run
    &&& match (o.stage, ev) {
        (Stage::Inspecting, Event::Inspected(Err(e))) => n.tracks == o.tracks && n.fixed
            == o.fixed && failed_with(n, inspect_context(o.path@), e@),
        (Stage::Inspecting, Event::Inspected(Ok(ts))) => n.tracks == ts && n.fixed == o.fixed
            && if ts.len() == 0 {
            n.stage == Stage::Finished(FileOutcome::Skipped(SkipReason::NoAssTracks))
        } else {
            n.stage == Stage::Extracting(0)
        },
        (Stage::Extracting(i), Event::Extracted(Err(e))) => n.tracks == o.tracks && n.fixed
            == o.fixed && failed_with(n, extract_context(o.tracks@[i as int].id, o.path@), e@),
        (Stage::Extracting(i), Event::Extracted(Ok(()))) => n.tracks == o.tracks && n.fixed
            == o.fixed && n.stage == Stage::Reading(i),
        (Stage::Reading(i), Event::ContentRead(Err(e))) => n.tracks == o.tracks && n.fixed
            == o.fixed && failed_with(n, read_context(o.tracks@[i as int].id), e@),
        (Stage::Reading(i), Event::ContentRead(Ok(text))) => n.tracks == o.tracks && n.fixed
            == o.fixed && match fix_script(text@) {
            Some(fixed_text) => n.stage matches Stage::Writing(j, c) && j == i && c@ == fixed_text,
            None => after_track(n, i as int, o.fixed.len()),
        },
        (Stage::Writing(i, _), Event::Written(Err(e))) => n.tracks == o.tracks && n.fixed
            == o.fixed && failed_with(n, write_context(o.tracks@[i as int].id), e@),
        (Stage::Writing(i, _), Event::Written(Ok(()))) => n.tracks == o.tracks && n.fixed@
            == o.fixed@.push(i) && after_track(n, i as int, n.fixed.len()),
        (Stage::Repacking, Event::Repacked(Err(e))) => n.tracks == o.tracks && n.fixed
            == o.fixed && failed_with(n, repack_context(o.path@), e@),
        (Stage::Repacking, Event::Repacked(Ok(()))) => n.tracks == o.tracks && n.fixed
            == o.fixed && n.stage == Stage::Finished(
            FileOutcome::Modified { tracks_fixed: o.fixed.len() },
        ),
        _ => n == o,
    }
}

impl FilePipeline {
    /// The pipeline's invariant. Nothing is fixed before the inspection. The fixed tracks are distinct positions, in order, of
    /// tracks already handled; a remux comes only outside a dry run and with at least one
    /// fixed track; a `Modified` outcome counts the fixed tracks, at least one; a file found
    /// already compliant had no track fixed.
    pub open spec fn wf(&self) -> bool {
        let done = match self.stage {
            Stage::Extracting(i) => i as int,
            Stage::Reading(i) => i as int,
            Stage::Writing(i, _) => i as int,
            _ => self.tracks.len() as int,
        };
        &&& forall|a: int, b: int|
            0 <= a < b < self.fixed.len() ==> self.fixed@[a] < self.fixed@[b]
        &&& forall|a: int| 0 <= a < self.fixed.len() ==> self.fixed@[a] < done
        &&& done <= self.tracks.len()
        &&& match self.stage {
            Stage::Inspecting => self.fixed.len() == 0,
            Stage::Extracting(i) => i < self.tracks.len(),
            Stage::Reading(i) => i < self.tracks.len(),
            Stage::Writing(i, _) => i < self.tracks.len(),
            Stage::Repacking => !self.dry_run && self.fixed.len() >= 1,
            Stage::Finished(FileOutcome::Modified { tracks_fixed }) => tracks_fixed
                == self.fixed.len() && tracks_fixed >= 1,
            Stage::Finished(FileOutcome::Skipped(SkipReason::AlreadyCompliant)) => self.fixed.len()
                == 0,
            _ => true,
        }
    }

    fn fail(&mut self, context: String, cause: String)
        ensures
            final(self).path == old(self).path,
            final(self).dry_run == old(self).dry_run,
            final(self).tracks == old(self).tracks,
            final(self).fixed == old(self).fixed,
            failed_with(*final(self), context@, cause@),
    {
        self.stage = Stage::Finished(FileOutcome::Failed(Failure { context, cause }));
    }

    /// Moves past track `i`: on to the next one, or to the end of the tracks.
    fn finish_track(&mut self, i: usize)
        requires
            i < old(self).tracks.len(),
            forall|a: int, b: int|
                0 <= a < b < old(self).fixed.len() ==> old(self).fixed@[a] < old(self).fixed@[b],
            forall|a: int| 0 <= a < old(self).fixed.len() ==> old(self).fixed@[a] <= i,
        ensures
            final(self).path == old(self).path,
            final(self).dry_run == old(self).dry_run,
            final(self).tracks == old(self).tracks,
            final(self).fixed == old(self).fixed,
            after_track(*final(self), i as int, old(self).fixed.len()),
            final(self).wf(),
    {
        if i + 1 < self.tracks.len() {
            self.stage = Stage::Extracting(i + 1);
        } else if self.fixed.len() == 0 {
            self.stage = Stage::Finished(FileOutcome::Skipped(SkipReason::AlreadyCompliant));
        } else if self.dry_run {
            self.stage = Stage::Finished(FileOutcome::Modified { tracks_fixed: self.fixed.len() });
        } else {
            self.stage = Stage::Repacking;
        }
    }

    /// Takes in what the caller did for the current stage and moves to the next one.
    pub fn advance(&mut self, event: Event)
        requires
            old(self).wf(),
        ensures
            steps_to(*old(self), event, *final(self)),
            final(self).wf(),
    {
        let mut stage = Stage::Inspecting;
        std::mem::swap(&mut stage, &mut self.stage);
        match (stage, event) {
            (Stage::Inspecting, Event::Inspected(Err(e))) => {
                let mut context = String::from_str("Failed to inspect subtitles for ");
                context.append(self.path.as_str());
                self.fail(context, e);
            },
            (Stage::Inspecting, Event::Inspected(Ok(ts))) => {
                if ts.len() == 0 {
                    self.tracks = ts;
                    self.stage = Stage::Finished(FileOutcome::Skipped(SkipReason::NoAssTracks));
                } else {
                    self.tracks = ts;
                    self.stage = Stage::Extracting(0);
                }
            },
            (Stage::Extracting(i), Event::Extracted(Err(e))) => {
                let mut context = String::from_str("Failed to extract track ");
                push_decimal(&mut context, self.tracks[i].id);
                context.append(" from ");
                context.append(self.path.as_str());
                self.fail(context, e);
            },
            (Stage::Extracting(i), Event::Extracted(Ok(()))) => {
                self.stage = Stage::Reading(i);
            },
            (Stage::Reading(i), Event::ContentRead(Err(e))) => {
                let mut context = String::from_str("Failed to read extracted ASS content for track ");
                push_decimal(&mut context, self.tracks[i].id);
                self.fail(context, e);
            },
            (Stage::Reading(i), Event::ContentRead(Ok(text))) => {
                match process_ass_content(text.as_str()) {
                    SubtitleOutcome::Modified { new_content } => {
                        self.stage = Stage::Writing(i, new_content);
                    },
                    SubtitleOutcome::Unchanged => {
                        self.finish_track(i);
                    },
                }
            },
            (Stage::Writing(i, _), Event::Written(Err(e))) => {
                let mut context = String::from_str("Failed to write updated ASS content for track ");
                push_decimal(&mut context, self.tracks[i].id);
                self.fail(context, e);
            },
            (Stage::Writing(i, _), Event::Written(Ok(()))) => {
                self.fixed.push(i);
                self.finish_track(i);
            },
            (Stage::Repacking, Event::Repacked(Err(e))) => {
                let mut context = String::from_str("Failed to repack MKV file ");
                context.append(self.path.as_str());
                self.fail(context, e);
            },
            (Stage::Repacking, Event::Repacked(Ok(()))) => {
                self.stage = Stage::Finished(FileOutcome::Modified { tracks_fixed: self.fixed.len() });
            },
            (stage, _) => {
                self.stage = stage;
            },
        }
    }

    /// The fixed tracks, for the remux: id, language and name of each, in order.
    pub fn modified_tracks(&self) -> (r: Vec<ModifiedTrack<'_>>)
        requires
            self.wf(),
        ensures
            r.len() == self.fixed.len(),
            forall|k: int|
                0 <= k < r.len() ==> {
                    let t = self.tracks@[self.fixed@[k] as int];
                    &&& (#[trigger] r@[k]).id == t.id
                    &&& r@[k].language@ == t.language@
                    &&& match (r@[k].name, t.name) {
                        (Some(a), Some(b)) => a@ == b@,
                        (None, None) => true,
                        _ => false,
                    }
                },
    {
        let mut r: Vec<ModifiedTrack<'_>> = Vec::new();
        let mut k: usize = 0;
        while k < self.fixed.len()
            invariant
                k <= self.fixed.len(),
                self.wf(),
                r.len() == k,
                forall|j: int|
                    0 <= j < k ==> {
                        let t = self.tracks@[self.fixed@[j] as int];
                        &&& (#[trigger] r@[j]).id == t.id
                        &&& r@[j].language@ == t.language@
                        &&& match (r@[j].name, t.name) {
                            (Some(a), Some(b)) => a@ == b@,
                            (None, None) => true,
                            _ => false,
                        }
                    },
            decreases self.fixed.len() - k,
        {
            let t = &self.tracks[self.fixed[k]];
            let name = match &t.name {
                Some(n) => Some(n.as_str()),
                None => None,
            };
            r.push(ModifiedTrack { id: t.id, language: t.language.as_str(), name });
            k = k + 1;
        }
        r
    }

    /// The report of a finished pipeline.
    pub fn into_report(self) -> (r: FileReport)
        requires
            self.stage is Finished,
        ensures
            r.path == self.path,
            self.stage == Stage::Finished(r.outcome),
    {
        match self.stage {
            Stage::Finished(outcome) => FileReport { path: self.path, outcome },
            _ => FileReport { path: self.path, outcome: FileOutcome::Skipped(SkipReason::NoAssTracks) },
        }
    }
}

/// A pipeline just started for the file `path`: nothing known yet, inspection first.
pub open spec fn started(p: FilePipeline, path: Seq<char>, dry_run: bool) -> bool {
    &&& p.path@ == path
    &&& p.dry_run == dry_run
    &&& p.tracks.len() == 0
    &&& p.fixed.len() == 0
    &&& p.stage == Stage::Inspecting
}

/// Entry point for one file: a pipeline that starts by inspecting the container.
pub fn process_file(path: &str, dry_run: bool) -> (p: FilePipeline)
    ensures
        started(p, path@, dry_run),
        p.wf(),
{
    FilePipeline {
        path: String::from_str(path),
        dry_run,
        tracks: Vec::new(),
        fixed: Vec::new(),
        stage: Stage::Inspecting,
    }
}

// ---------------------------------------------------------------------------
// Properties of the pipeline

/// A dry run never remuxes: no well-formed dry-run pipeline asks for it.
pub proof fn lemma_dry_run_never_repacks(p: FilePipeline)
    requires
        p.wf(),
        p.dry_run,
    ensures
        !(p.stage is Repacking),
{
}

proof fn lemma_increasing_below(s: Seq<usize>, n: int)
    requires
        n >= 0,
        forall|a: int, b: int| 0 <= a < b < s.len() ==> s[a] < s[b],
        forall|a: int| 0 <= a < s.len() ==> s[a] < n,
    ensures
        s.len() <= n,
    decreases s.len(),
{
    if s.len() > 0 {
        let t = s.drop_last();
        assert(s[s.len() - 1] < n);
        assert forall|a: int| 0 <= a < t.len() implies t[a] < n - 1 by {
            assert(s[a] < s[s.len() - 1]);
        }
        lemma_increasing_below(t, n - 1);
    }
}

/// A file reported as modified had at least one track fixed, and no more tracks fixed
/// than it has ASS/SSA tracks.
pub proof fn lemma_modified_count_bounds(p: FilePipeline)
    requires
        p.wf(),
        p.stage matches Stage::Finished(FileOutcome::Modified { tracks_fixed }),
    ensures
        p.stage matches Stage::Finished(FileOutcome::Modified { tracks_fixed }) && 1
            <= tracks_fixed <= p.tracks.len(),
{
    lemma_increasing_below(p.fixed@, p.tracks.len() as int);
}

/// A finished pipeline stays finished with the same outcome, whatever is reported.
pub proof fn lemma_finished_is_final(p: FilePipeline, ev: Event, n: FilePipeline)
    requires
        p.stage is Finished,
        steps_to(p, ev, n),
    ensures
        n == p,
{
}


/// `states` is a run of the pipeline on `events`: each state follows from the one
/// before it once the event between them is reported.
pub open spec fn is_run(states: Seq<FilePipeline>, events: Seq<Event>) -> bool {
    &&& states.len() == events.len() + 1
    &&& forall|k: int|
        0 <= k < events.len() ==> steps_to(#[trigger] states[k], events[k], states[k + 1])
}

/// The event reports that the work the stage asked for failed.
pub open spec fn reports_error(stage: Stage, ev: Event) -> bool {
    match (stage, ev) {
        (Stage::Inspecting, Event::Inspected(Err(_))) => true,
        (Stage::Extracting(_), Event::Extracted(Err(_))) => true,
        (Stage::Reading(_), Event::ContentRead(Err(_))) => true,
        (Stage::Writing(_, _), Event::Written(Err(_))) => true,
        (Stage::Repacking, Event::Repacked(Err(_))) => true,
        _ => false,
    }
}

/// The stage ended in a failure.
pub open spec fn is_failed(stage: Stage) -> bool {
    stage matches Stage::Finished(FileOutcome::Failed(_))
}

proof fn lemma_finished_stays(states: Seq<FilePipeline>, events: Seq<Event>, k: int, j: int)
    requires
        is_run(states, events),
        0 <= k <= j < states.len(),
        states[k].stage is Finished,
    ensures
        states[j] == states[k],
    decreases j - k,
{
    if k < j {
        assert(steps_to(states[k], events[k], states[k + 1]));
        lemma_finished_stays(states, events, k + 1, j);
    }
}

proof fn lemma_run_keeps_path(states: Seq<FilePipeline>, events: Seq<Event>, j: int)
    requires
        is_run(states, events),
        0 <= j < states.len(),
    ensures
        states[j].path == states[0].path,
        states[j].dry_run == states[0].dry_run,
    decreases j,
{
    if j > 0 {
        lemma_run_keeps_path(states, events, j - 1);
        assert(steps_to(states[j - 1], events[j - 1], states[j]));
    }
}

/// Over a whole run the file and the dry-run choice are kept, and a failure reported
/// for the current stage ends the run as a `Failed` outcome that no later event
/// changes: every error ends up in the report.
pub proof fn lemma_run_reports_every_error(states: Seq<FilePipeline>, events: Seq<Event>)
    requires
        is_run(states, events),
    ensures
        forall|j: int|
            0 <= j < states.len() ==> (#[trigger] states[j]).path == states[0].path
                && states[j].dry_run == states[0].dry_run,
        forall|k: int|
            0 <= k < events.len() && reports_error(#[trigger] states[k].stage, events[k])
                ==> is_failed(states.last().stage),
{
    assert forall|j: int| 0 <= j < states.len() implies (#[trigger] states[j]).path
        == states[0].path && states[j].dry_run == states[0].dry_run by {
        lemma_run_keeps_path(states, events, j);
    }
    assert forall|k: int|
        0 <= k < events.len() && reports_error(#[trigger] states[k].stage, events[k])
            implies is_failed(states.last().stage) by {
        assert(steps_to(states[k], events[k], states[k + 1]));
        assert(is_failed(states[k + 1].stage));
        lemma_finished_stays(states, events, k + 1, states.len() - 1);
    }
}

/// Two stages that agree, texts compared by their characters.
pub open spec fn same_stage(a: Stage, b: Stage) -> bool {
    match (a, b) {
        (Stage::Writing(i, c), Stage::Writing(j, e)) => i == j && c@ == e@,
        (
            Stage::Finished(FileOutcome::Failed(f)),
            Stage::Finished(FileOutcome::Failed(g)),
        ) => f.context@ == g.context@ && f.cause@ == g.cause@,
        _ => a == b,
    }
}

/// A dry-run pipeline `d` and a real one `r` that have seen the same events: they agree,
/// except that where the real one remuxes the dry one has already counted the fixed
/// tracks as modified.
pub open spec fn dry_matches_real(d: FilePipeline, r: FilePipeline) -> bool {
    &&& d.dry_run && !r.dry_run
    &&& d.path@ == r.path@
    &&& d.tracks@ == r.tracks@
    &&& d.fixed@ == r.fixed@
    &&& if r.stage is Repacking {
        d.stage == Stage::Finished(FileOutcome::Modified { tracks_fixed: d.fixed.len() })
    } else {
        same_stage(d.stage, r.stage)
    }
}

proof fn lemma_dry_step(d: FilePipeline, r: FilePipeline, ev: Event, d2: FilePipeline, r2: FilePipeline)
    requires
        dry_matches_real(d, r),
        !(r.stage is Repacking),
        steps_to(d, ev, d2),
        steps_to(r, ev, r2),
    ensures
        dry_matches_real(d2, r2),
{
    assert(d.fixed.len() == r.fixed.len());
    match (r.stage, ev) {
        (Stage::Writing(i, _), Event::Written(Ok(()))) => {
            assert(d2.fixed@ =~= r2.fixed@);
        },
        _ => {},
    }
}

proof fn lemma_dry_run_matches(
    d: Seq<FilePipeline>,
    r: Seq<FilePipeline>,
    events: Seq<Event>,
    k: int,
)
    requires
        is_run(d, events),
        is_run(r, events),
        dry_matches_real(d[0], r[0]),
        forall|j: int| 0 <= j < events.len() ==> !(#[trigger] r[j].stage is Repacking),
        0 <= k < d.len(),
    ensures
        dry_matches_real(d[k], r[k]),
    decreases k,
{
    if k > 0 {
        lemma_dry_run_matches(d, r, events, k - 1);
        assert(steps_to(d[k - 1], events[k - 1], d[k]));
        assert(steps_to(r[k - 1], events[k - 1], r[k]));
        assert(!(r[k - 1].stage is Repacking));
        lemma_dry_step(d[k - 1], r[k - 1], events[k - 1], d[k], r[k]);
    }
}

/// A dry run previews a real one. Start a dry-run pipeline and a real one for the same
/// file with `process_file`, and feed both the same events, up to the remux. They agree
/// on the tracks and the fixed tracks. Where the real one then remuxes successfully, it
/// finishes with exactly the outcome the dry run already has; otherwise both stand at
/// the same stage. The dry run itself never reaches the remux.
pub proof fn lemma_dry_run_previews_real_run(
    path: Seq<char>,
    d: Seq<FilePipeline>,
    r: Seq<FilePipeline>,
    events: Seq<Event>,
    done: FilePipeline,
)
    requires
        started(d[0], path, true),
        started(r[0], path, false),
        is_run(d, events),
        is_run(r, events),
        forall|j: int| 0 <= j < events.len() ==> !(#[trigger] r[j].stage is Repacking),
        r.last().stage is Repacking ==> steps_to(r.last(), Event::Repacked(Ok(())), done),
    ensures
        d.last().tracks@ == r.last().tracks@,
        d.last().fixed@ == r.last().fixed@,
        forall|j: int| 0 <= j < d.len() ==> !(#[trigger] d[j].stage is Repacking),
        r.last().stage is Repacking ==> d.last().stage == done.stage && done.stage is Finished,
        !(r.last().stage is Repacking) ==> same_stage(d.last().stage, r.last().stage),
{
    assert(d[0].tracks@ =~= r[0].tracks@);
    assert(d[0].fixed@ =~= r[0].fixed@);
    lemma_dry_run_matches(d, r, events, d.len() - 1);
    assert forall|j: int| 0 <= j < d.len() implies !(#[trigger] d[j].stage is Repacking) by {
        lemma_dry_run_matches(d, r, events, j);
    }
}

/// The report of a file run through `process_file`: whatever events come, the report
/// names the file it was started for, and a failure reported for any step makes the
/// outcome `Failed`; none is lost.
pub proof fn lemma_process_file_reports(
    path: Seq<char>,
    dry_run: bool,
    states: Seq<FilePipeline>,
    events: Seq<Event>,
    report: FileReport,
)
    requires
        started(states[0], path, dry_run),
        is_run(states, events),
        states.last().stage is Finished,
        report.path == states.last().path,
        states.last().stage == Stage::Finished(report.outcome),
    ensures
        report.path@ == path,
        states.last().dry_run == dry_run,
        (exists|k: int| 0 <= k < events.len() && reports_error(#[trigger] states[k].stage, events[k]))
            ==> report.outcome is Failed,
{
    lemma_run_reports_every_error(states, events);
    assert(states.last() == states[states.len() - 1]);
}


/// Every step keeps the pipeline's invariant.
pub proof fn lemma_step_keeps_wf(o: FilePipeline, ev: Event, n: FilePipeline)
    requires
        o.wf(),
        steps_to(o, ev, n),
    ensures
        n.wf(),
{
    match (o.stage, ev) {
        (Stage::Writing(i, _), Event::Written(Ok(()))) => {
            assert(n.fixed@.last() == i);
            assert forall|a: int| 0 <= a < n.fixed.len() implies n.fixed@[a] <= i by {
                if a < o.fixed.len() {
                    assert(n.fixed@[a] == o.fixed@[a]);
                }
            }
        },
        _ => {},
    }
}

/// The fixed tracks of `a` come first, in order, among those of `b`.
pub open spec fn fixed_prefix(a: FilePipeline, b: FilePipeline) -> bool {
    a.fixed.len() <= b.fixed.len() && b.fixed@.take(a.fixed.len() as int) == a.fixed@
}

proof fn lemma_run_from(states: Seq<FilePipeline>, events: Seq<Event>, k: int, j: int)
    requires
        is_run(states, events),
        states[0].wf(),
        0 <= k <= j < states.len(),
    ensures
        states[j].wf(),
        fixed_prefix(states[k], states[j]),
    decreases j,
{
    if j == 0 {
        assert(states[0].fixed@.take(states[0].fixed.len() as int) =~= states[0].fixed@);
    } else if k == j {
        lemma_run_from(states, events, 0, j - 1);
        assert(steps_to(states[j - 1], events[j - 1], states[j]));
        lemma_step_keeps_wf(states[j - 1], events[j - 1], states[j]);
        assert(states[j].fixed@.take(states[j].fixed.len() as int) =~= states[j].fixed@);
    } else {
        lemma_run_from(states, events, k, j - 1);
        lemma_run_from(states, events, 0, j - 1);
        let p = states[j - 1];
        let q = states[j];
        assert(steps_to(p, events[j - 1], q));
        lemma_step_keeps_wf(p, events[j - 1], q);
        assert(q.fixed@ == p.fixed@ || q.fixed@ == p.fixed@.push(q.fixed@.last()));
        assert(q.fixed@.take(states[k].fixed.len() as int) =~= p.fixed@.take(
            states[k].fixed.len() as int,
        ));
    }
}

/// Fixed tracks stay fixed: along a run from a well-formed pipeline every state is
/// well formed, each keeps the fixed tracks of the states before it, and so once a track
/// has been fixed the file can no longer be reported as already compliant.
pub proof fn lemma_fixed_tracks_are_never_lost(states: Seq<FilePipeline>, events: Seq<Event>)
    requires
        is_run(states, events),
        states[0].wf(),
    ensures
        forall|j: int| 0 <= j < states.len() ==> (#[trigger] states[j]).wf(),
        forall|k: int, j: int|
            0 <= k <= j < states.len() ==> fixed_prefix(#[trigger] states[k], #[trigger] states[j]),
        forall|k: int, j: int|
            0 <= k <= j < states.len() && (#[trigger] states[k]).fixed.len() >= 1 ==> (
            #[trigger] states[j]).stage != Stage::Finished(
                FileOutcome::Skipped(SkipReason::AlreadyCompliant),
            ),
{
    assert forall|j: int| 0 <= j < states.len() implies (#[trigger] states[j]).wf() by {
        lemma_run_from(states, events, 0, j);
    }
    assert forall|k: int, j: int| 0 <= k <= j < states.len() implies fixed_prefix(
        #[trigger] states[k],
        #[trigger] states[j],
    ) by {
        lemma_run_from(states, events, k, j);
    }
    assert forall|k: int, j: int|
        0 <= k <= j < states.len() && (#[trigger] states[k]).fixed.len() >= 1 implies (
        #[trigger] states[j]).stage != Stage::Finished(
            FileOutcome::Skipped(SkipReason::AlreadyCompliant),
        ) by {
        lemma_run_from(states, events, k, j);
    }
}

/// After the last track, a real run that has fixed a track goes on to the remux (or
/// first writes the last track's fix), whatever the last track's text is.
pub proof fn lemma_last_track_leads_to_remux(o: FilePipeline, text: String, n: FilePipeline)
    requires
        o.wf(),
        o.stage matches Stage::Reading(i) && i + 1 == o.tracks.len(),
        o.fixed.len() >= 1,
        !o.dry_run,
        steps_to(o, Event::ContentRead(Ok(text)), n),
    ensures
        n.stage is Repacking || n.stage is Writing,
{
}

// ---------------------------------------------------------------------------
// Run summary

/// Counts of the outcomes of a run.
pub struct Summary {
    pub total_scanned: usize,
    pub modified: usize,
    pub already_compliant: usize,
    pub no_ass_tracks: usize,
    pub failed: usize,
}

/// Counts of (modified, already compliant, without ASS tracks, failed) reports.
pub open spec fn outcome_counts(rs: Seq<FileReport>) -> (nat, nat, nat, nat)
    decreases rs.len(),
{
    if rs.len() == 0 {
        (0, 0, 0, 0)
    } else {
        let (m, c, n, f) = outcome_counts(rs.drop_last());
        match rs.last().outcome {
            FileOutcome::Modified { .. } => (m + 1, c, n, f),
            FileOutcome::Skipped(SkipReason::AlreadyCompliant) => (m, c + 1, n, f),
            FileOutcome::Skipped(SkipReason::NoAssTracks) => (m, c, n + 1, f),
            FileOutcome::Failed(_) => (m, c, n, f + 1),
        }
    }
}

/// Every report falls in exactly one count.
pub proof fn lemma_outcome_counts_total(rs: Seq<FileReport>)
    ensures
        ({
            let (m, c, n, f) = outcome_counts(rs);
            m + c + n + f == rs.len()
        }),
    decreases rs.len(),
{
    if rs.len() > 0 {
        lemma_outcome_counts_total(rs.drop_last());
    }
}

/// Counts the outcomes of the processed files.
pub fn summarize(reports: &Vec<FileReport>) -> (s: Summary)
    ensures
        s.total_scanned == reports.len(),
        (s.modified as nat, s.already_compliant as nat, s.no_ass_tracks as nat, s.failed as nat)
            == outcome_counts(reports@),
        s.modified + s.already_compliant + s.no_ass_tracks + s.failed == s.total_scanned,
{
    let mut s = Summary {
        total_scanned: reports.len(),
        modified: 0,
        already_compliant: 0,
        no_ass_tracks: 0,
        failed: 0,
    };
    let mut i: usize = 0;
    while i < reports.len()
        invariant
            i <= reports.len(),
            s.total_scanned == reports.len(),
            (s.modified as nat, s.already_compliant as nat, s.no_ass_tracks as nat, s.failed as nat)
                == outcome_counts(reports@.take(i as int)),
        decreases reports.len() - i,
    {
        proof {
            lemma_outcome_counts_total(reports@.take(i as int));
            assert(reports@.take(i + 1).drop_last() =~= reports@.take(i as int));
        }
        match &reports[i].outcome {
            FileOutcome::Modified { .. } => s.modified = s.modified + 1,
            FileOutcome::Skipped(SkipReason::AlreadyCompliant) => s.already_compliant = s.already_compliant + 1,
            FileOutcome::Skipped(SkipReason::NoAssTracks) => s.no_ass_tracks = s.no_ass_tracks + 1,
            FileOutcome::Failed(_) => s.failed = s.failed + 1,
        }
        i = i + 1;
    }
    proof {
        assert(reports@.take(reports.len() as int) =~= reports@);
        lemma_outcome_counts_total(reports@);
    }
    s
}

} // verus!
