//! One synchronisation run as a state machine: the caller lists directories,
//! checks local files and writes them; the scan decides what to do with each
//! listed entry and keeps the run's counters.
use vstd::prelude::*;
use crate::alist2strm::path::{
    bdmv_root_of, download_url_of, is_bdmv_stream, local_path_of, AlistPath,
};
use crate::alist2strm::protection::set_of;
use crate::alist2strm::runner::{
    is_filtered, with_stream, Alist2Strm, BdmvCollections, ExistingDecision, PathDecision,
    };
use crate::alist2strm::Mode;
use crate::fspath::{is_strm, is_strm_vec};
use crate::text::chars_of;

verus! {

/// `x + 1`, wrapping to 0 past the maximum (as an atomic counter does).
pub open spec fn inc(x: usize) -> usize {
    if x == usize::MAX {
        0
    } else {
        (x + 1) as usize
    }
}

fn inc_exec(x: usize) -> (r: usize)
    ensures
        r == inc(x),
{
    x.wrapping_add(1)
}

/// The counters of a run, reported when it ends.
#[derive(Debug, Clone, Copy)]
pub struct RunCounters {
    pub scanned_dir_count: usize,
    pub skipped_dir_count: usize,
    pub discovered_file_count: usize,
    pub matched_file_count: usize,
    pub filtered_file_count: usize,
    pub bdmv_collection_count: usize,
    pub bdmv_selected_count: usize,
    pub strm_created_count: usize,
    pub strm_updated_count: usize,
    pub strm_skipped_count: usize,
    pub attachment_downloaded_count: usize,
    pub attachment_updated_count: usize,
    pub attachment_skipped_count: usize,
    pub local_deleted_count: usize,
    pub local_delete_ignored_count: usize,
    pub failed_path_count: usize,
}

impl RunCounters {
    /// All counters at zero.
    pub fn new() -> (r: RunCounters)
        ensures
            r == RunCounters::zero(),
    {
        RunCounters {
            scanned_dir_count: 0,
            skipped_dir_count: 0,
            discovered_file_count: 0,
            matched_file_count: 0,
            filtered_file_count: 0,
            bdmv_collection_count: 0,
            bdmv_selected_count: 0,
            strm_created_count: 0,
            strm_updated_count: 0,
            strm_skipped_count: 0,
            attachment_downloaded_count: 0,
            attachment_updated_count: 0,
            attachment_skipped_count: 0,
            local_deleted_count: 0,
            local_delete_ignored_count: 0,
            failed_path_count: 0,
        }
    }

    /// All counters at zero.
    pub open spec fn zero() -> RunCounters {
        RunCounters {
            scanned_dir_count: 0,
            skipped_dir_count: 0,
            discovered_file_count: 0,
            matched_file_count: 0,
            filtered_file_count: 0,
            bdmv_collection_count: 0,
            bdmv_selected_count: 0,
            strm_created_count: 0,
            strm_updated_count: 0,
            strm_skipped_count: 0,
            attachment_downloaded_count: 0,
            attachment_updated_count: 0,
            attachment_skipped_count: 0,
            local_deleted_count: 0,
            local_delete_ignored_count: 0,
            failed_path_count: 0,
        }
    }

    /// A `.strm` file was written; it `existed` before or was created.
    pub fn record_strm_written(&mut self, existed: bool)
        ensures
            existed ==> *final(self) == (RunCounters { strm_updated_count: inc(old(self).strm_updated_count), ..*old(self) }),
            !existed ==> *final(self) == (RunCounters { strm_created_count: inc(old(self).strm_created_count), ..*old(self) }),
    {
        if existed {
            self.strm_updated_count = inc_exec(self.strm_updated_count);
        } else {
            self.strm_created_count = inc_exec(self.strm_created_count);
        }
    }

    /// A companion file was downloaded; it `existed` before or is new.
    pub fn record_download(&mut self, existed: bool)
        ensures
            existed ==> *final(self) == (RunCounters { attachment_updated_count: inc(old(self).attachment_updated_count), ..*old(self) }),
            !existed ==> *final(self) == (RunCounters { attachment_downloaded_count: inc(old(self).attachment_downloaded_count), ..*old(self) }),
    {
        if existed {
            self.attachment_updated_count = inc_exec(self.attachment_updated_count);
        } else {
            self.attachment_downloaded_count = inc_exec(self.attachment_downloaded_count);
        }
    }

    /// Processing a path failed and it was skipped.
    pub fn record_failure(&mut self)
        ensures
            *final(self) == (RunCounters { failed_path_count: inc(old(self).failed_path_count), ..*old(self) }),
    {
        self.failed_path_count = inc_exec(self.failed_path_count);
    }

    /// A stale local file was deleted (`ignored`: kept by the ignore pattern).
    pub fn record_cleanup(&mut self, ignored: bool)
        ensures
            ignored ==> *final(self) == (RunCounters { local_delete_ignored_count: inc(old(self).local_delete_ignored_count), ..*old(self) }),
            !ignored ==> *final(self) == (RunCounters { local_deleted_count: inc(old(self).local_deleted_count), ..*old(self) }),
    {
        if ignored {
            self.local_delete_ignored_count = inc_exec(self.local_delete_ignored_count);
        } else {
            self.local_deleted_count = inc_exec(self.local_deleted_count);
        }
    }
}

/// Every discovered file has been counted once, as filtered or as matched
/// (counters wrap around together).
pub open spec fn files_accounted(c: RunCounters) -> bool {
    (c.filtered_file_count + c.matched_file_count) % (usize::MAX + 1) == c.discovered_file_count
}

proof fn lemma_inc_mod(x: usize)
    ensures
        inc(x) as int == (x + 1) % (usize::MAX + 1),
{
    let m: int = usize::MAX + 1;
    if x == usize::MAX {
        vstd::arithmetic::div_mod::lemma_mod_self_0(m);
    } else {
        vstd::arithmetic::div_mod::lemma_small_mod((x + 1) as nat, m as nat);
    }
}

proof fn lemma_accounted_step(f: usize, mm: usize, d: usize)
    requires
        (f + mm) % (usize::MAX + 1) == d,
    ensures
        (inc(f) + mm) % (usize::MAX + 1) == inc(d),
        (f + inc(mm)) % (usize::MAX + 1) == inc(d),
{
    let m: int = usize::MAX + 1;
    lemma_inc_mod(f);
    lemma_inc_mod(mm);
    lemma_inc_mod(d);
    vstd::arithmetic::div_mod::lemma_add_mod_noop(f + 1, mm as int, m);
    vstd::arithmetic::div_mod::lemma_add_mod_noop(f as int, mm + 1, m);
    vstd::arithmetic::div_mod::lemma_add_mod_noop(f + mm, 1, m);
    vstd::arithmetic::div_mod::lemma_small_mod(mm as nat, m as nat);
    vstd::arithmetic::div_mod::lemma_small_mod(f as nat, m as nat);
    vstd::arithmetic::div_mod::lemma_small_mod(1, m as nat);
    vstd::arithmetic::div_mod::lemma_small_mod(d as nat, m as nat);
}

/// The outcome of processing one path.
pub enum Outcome {
    /// A `.strm` file was written; it existed before or was created.
    StrmWritten { existed: bool },
    /// A companion file was downloaded; it existed before or is new.
    Downloaded { existed: bool },
    /// Processing failed, or there was no content to write.
    Failed,
}

/// The counters after one outcome.
pub open spec fn after_outcome(c: RunCounters, o: Outcome) -> RunCounters {
    match o {
        Outcome::StrmWritten { existed } => if existed {
            RunCounters { strm_updated_count: inc(c.strm_updated_count), ..c }
        } else {
            RunCounters { strm_created_count: inc(c.strm_created_count), ..c }
        },
        Outcome::Downloaded { existed } => if existed {
            RunCounters { attachment_updated_count: inc(c.attachment_updated_count), ..c }
        } else {
            RunCounters { attachment_downloaded_count: inc(c.attachment_downloaded_count), ..c }
        },
        Outcome::Failed => RunCounters { failed_path_count: inc(c.failed_path_count), ..c },
    }
}

impl RunCounters {
    /// Counts the outcome of processing one path.
    pub fn record(&mut self, outcome: Outcome)
        ensures
            *final(self) == after_outcome(*old(self), outcome),
    {
        match outcome {
            Outcome::StrmWritten { existed } => self.record_strm_written(existed),
            Outcome::Downloaded { existed } => self.record_download(existed),
            Outcome::Failed => self.record_failure(),
        }
    }
}

/// What the caller does with a listed entry.
pub enum EntryAction {
    /// A directory, queued for listing.
    Descend,
    /// Nothing: filtered, or kept with the streams of its Blu-ray disc.
    Skip,
    /// Check the local file at `local_path`, then maybe process `path`.
    Check { path: AlistPath, local_path: String, companion: bool },
}

/// What processing a path takes.
pub enum ProcessStep {
    /// The raw link must be fetched first (`RawURL` mode).
    NeedRawUrl,
    /// Write `content` to the `.strm` file at `local_path`.
    WriteStrm { local_path: String, content: String },
    /// The mode yields no content: skipped, counted as failed.
    EmptyContent,
    /// Download `url` to `local_path`.
    Download { local_path: String, url: String },
}

/// The state of one run's scan.
pub struct Scan {
    stack: Vec<String>,
    local_paths: Vec<String>,
    bdmv: BdmvCollections,
    counters: RunCounters,
}

impl Scan {
    /// The directories still to list; the last is listed next.
    pub closed spec fn pending(self) -> Seq<Seq<char>> {
        self.stack@.map_values(|s: String| s@)
    }

    /// The local paths the run produces (and clean-up keeps).
    pub closed spec fn produced(self) -> Set<Seq<char>> {
        set_of(self.local_paths@)
    }

    /// The Blu-ray streams collected so far, by disc.
    pub closed spec fn discs(self) -> Seq<(Seq<char>, Seq<AlistPath>)> {
        self.bdmv.groups()
    }

    /// The counters so far.
    pub closed spec fn count(self) -> RunCounters {
        self.counters
    }

    /// A scan of `source_dir`, with nothing counted yet.
    pub fn new(source_dir: String) -> (r: Scan)
        ensures
            r.pending() == seq![source_dir@],
            r.produced() == Set::<Seq<char>>::empty(),
            r.discs().len() == 0,
            r.count() == RunCounters::zero(),
            files_accounted(r.count()),
    {
        let ghost s = source_dir@;
        let mut stack: Vec<String> = Vec::new();
        stack.push(source_dir);
        let r = Scan { stack, local_paths: Vec::new(), bdmv: BdmvCollections::new(), counters: RunCounters::new() };
        assert(r.stack@.map_values(|x: String| x@) =~= seq![s]);
        assert(set_of(r.local_paths@) =~= Set::<Seq<char>>::empty());
        proof { vstd::arithmetic::div_mod::lemma_small_mod(0, (usize::MAX + 1) as nat); }
        r
    }

    /// The next directory to list, if any (the most recently queued).
    pub fn next_dir(&mut self) -> (r: Option<String>)
        ensures
            old(self).pending().len() == 0 ==> r is None && final(self).pending() == old(self).pending(),
            old(self).pending().len() > 0 ==> (r matches Some(d) && d@ == old(self).pending().last()
                && final(self).pending() == old(self).pending().drop_last()),
            final(self).produced() == old(self).produced(),
            final(self).discs() == old(self).discs(),
            final(self).count() == old(self).count(),
    {
        if self.stack.len() == 0 {
            return None;
        }
        let r = self.stack.pop();
        assert(self.stack@.map_values(|s: String| s@) =~= old(self).stack@.map_values(|s: String| s@).drop_last());
        r
    }

    /// The listing of a directory failed; it is skipped.
    pub fn listing_failed(&mut self)
        ensures
            final(self).count() == (RunCounters { skipped_dir_count: inc(old(self).count().skipped_dir_count), ..old(self).count() }),
            final(self).pending() == old(self).pending(),
            final(self).produced() == old(self).produced(),
            final(self).discs() == old(self).discs(),
    {
        self.counters.skipped_dir_count = inc_exec(self.counters.skipped_dir_count);
    }

    /// A directory was listed.
    pub fn listing_succeeded(&mut self)
        ensures
            final(self).count() == (RunCounters { scanned_dir_count: inc(old(self).count().scanned_dir_count), ..old(self).count() }),
            final(self).pending() == old(self).pending(),
            final(self).produced() == old(self).produced(),
            final(self).discs() == old(self).discs(),
    {
        self.counters.scanned_dir_count = inc_exec(self.counters.scanned_dir_count);
    }

    /// Decides on one listed entry: a directory is queued; a file is counted
    /// as discovered and then as filtered or matched; a Blu-ray stream is
    /// collected with its disc; any other file's local path is recorded as
    /// produced and handed back for the check of the local file.
    pub fn on_entry(
        &mut self,
        task: &Alist2Strm,
        process_exts: &Vec<String>,
        download_exts: &Vec<String>,
        path: AlistPath,
    ) -> (r: EntryAction)
        ensures
            path.is_dir ==> r is Descend && final(self).pending() == old(self).pending().push(path.full_path@)
                && final(self).produced() == old(self).produced() && final(self).discs() == old(self).discs()
                && final(self).count() == old(self).count(),
            !path.is_dir ==> final(self).pending() == old(self).pending(),
            !path.is_dir ==> final(self).count().discovered_file_count == inc(old(self).count().discovered_file_count),
            !path.is_dir && is_filtered(path.full_path@, path.name@, set_of(process_exts@)) ==> r is Skip
                && final(self).count() == (RunCounters {
                    discovered_file_count: inc(old(self).count().discovered_file_count),
                    filtered_file_count: inc(old(self).count().filtered_file_count),
                    ..old(self).count()
                })
                && final(self).produced() == old(self).produced() && final(self).discs() == old(self).discs(),
            !path.is_dir && !is_filtered(path.full_path@, path.name@, set_of(process_exts@))
                && is_bdmv_stream(path.full_path@, path.name@) ==> r is Skip
                && final(self).produced() == old(self).produced()
                && (bdmv_root_of(path.full_path@) matches Some(root) ==> final(self).discs() == with_stream(old(self).discs(), root, path)
                    && final(self).count() == (RunCounters {
                        discovered_file_count: inc(old(self).count().discovered_file_count),
                        matched_file_count: inc(old(self).count().matched_file_count),
                        bdmv_collection_count: inc(old(self).count().bdmv_collection_count),
                        ..old(self).count()
                    }))
                && (bdmv_root_of(path.full_path@) is None ==> final(self).discs() == old(self).discs()
                    && final(self).count() == (RunCounters {
                        discovered_file_count: inc(old(self).count().discovered_file_count),
                        matched_file_count: inc(old(self).count().matched_file_count),
                        ..old(self).count()
                    })),
            !path.is_dir && !is_filtered(path.full_path@, path.name@, set_of(process_exts@))
                && !is_bdmv_stream(path.full_path@, path.name@) ==> (r matches EntryAction::Check { path: p, local_path, companion }
                && p == path
                && local_path@ == local_path_of(path.name@, path.full_path@, task.cfg().source_dir@,
                    task.cfg().target_dir@, task.cfg().flatten_mode, None)
                && companion == set_of(download_exts@).contains(crate::alist2strm::path::suffix_spec(path.name@))
                && final(self).produced() == old(self).produced().insert(local_path@)
                && final(self).discs() == old(self).discs()
                && final(self).count() == (RunCounters {
                    discovered_file_count: inc(old(self).count().discovered_file_count),
                    matched_file_count: inc(old(self).count().matched_file_count),
                    ..old(self).count()
                })),
            files_accounted(old(self).count()) ==> files_accounted(final(self).count()),
    {
        proof {
            let c = self.counters;
            if files_accounted(c) {
                lemma_accounted_step(c.filtered_file_count, c.matched_file_count, c.discovered_file_count);
            }
        }
        if path.is_dir {
            let ghost old_stack = self.stack@;
            let d = path.full_path.clone();
            self.stack.push(d);
            assert(self.stack@.map_values(|s: String| s@) =~= old_stack.map_values(|s: String| s@).push(path.full_path@));
            return EntryAction::Descend;
        }
        self.counters.discovered_file_count = inc_exec(self.counters.discovered_file_count);
        match task.classify_path(&path, process_exts, download_exts) {
            PathDecision::Filtered => {
                self.counters.filtered_file_count = inc_exec(self.counters.filtered_file_count);
                EntryAction::Skip
            },
            PathDecision::BdmvCandidate(root) => {
                self.counters.matched_file_count = inc_exec(self.counters.matched_file_count);
                match root {
                    Some(root) => {
                        self.bdmv.add(root, path);
                        self.counters.bdmv_collection_count = inc_exec(self.counters.bdmv_collection_count);
                    },
                    None => {},
                }
                EntryAction::Skip
            },
            PathDecision::Candidate { local_path, companion } => {
                self.counters.matched_file_count = inc_exec(self.counters.matched_file_count);
                let ghost old_paths = self.local_paths@;
                let l = local_path.clone();
                self.local_paths.push(l);
                proof { crate::alist2strm::protection::lemma_set_of_push(old_paths, l); }
                EntryAction::Check { path, local_path, companion }
            },
        }
    }

    /// Decides on a checked candidate whose local file was `found` (and, for a
    /// companion, is `stale`): whether to process it; a skip is counted.
    pub fn on_local_check(&mut self, task: &Alist2Strm, local_path: &str, found: bool, companion: bool, stale: bool) -> (process: bool)
        ensures
            process == (task.cfg().overwrite || !found || (companion && stale)),
            process ==> final(self).count() == old(self).count(),
            !process && is_strm(local_path@) ==> final(self).count() == (RunCounters {
                strm_skipped_count: inc(old(self).count().strm_skipped_count), ..old(self).count() }),
            !process && !is_strm(local_path@) ==> final(self).count() == (RunCounters {
                attachment_skipped_count: inc(old(self).count().attachment_skipped_count), ..old(self).count() }),
            final(self).pending() == old(self).pending(),
            final(self).produced() == old(self).produced(),
            final(self).discs() == old(self).discs(),
    {
        match task.existing_decision(local_path, found, companion, stale) {
            ExistingDecision::Process => true,
            ExistingDecision::SkipStrm => {
                self.counters.strm_skipped_count = inc_exec(self.counters.strm_skipped_count);
                false
            },
            ExistingDecision::SkipAttachment => {
                self.counters.attachment_skipped_count = inc_exec(self.counters.attachment_skipped_count);
                false
            },
        }
    }

    /// Counts the outcome of processing one path.
    pub fn record(&mut self, outcome: Outcome)
        ensures
            final(self).count() == after_outcome(old(self).count(), outcome),
            final(self).pending() == old(self).pending(),
            final(self).produced() == old(self).produced(),
            final(self).discs() == old(self).discs(),
    {
        self.counters.record(outcome);
    }

    /// Checking a candidate failed; it is skipped and counted as failed.
    pub fn check_failed(&mut self)
        ensures
            final(self).count() == (RunCounters { failed_path_count: inc(old(self).count().failed_path_count), ..old(self).count() }),
            final(self).pending() == old(self).pending(),
            final(self).produced() == old(self).produced(),
            final(self).discs() == old(self).discs(),
    {
        self.counters.failed_path_count = inc_exec(self.counters.failed_path_count);
    }

    /// Ends the scan: the largest stream of each disc is selected, counted,
    /// and its local path recorded as produced.  Returns the selected
    /// streams, the produced local paths and the counters.
    pub fn finish(self, task: &Alist2Strm) -> (r: (Vec<AlistPath>, Vec<String>, RunCounters))
        ensures
            r.0@ == self.discs().map_values(|e: (Seq<char>, Seq<AlistPath>)| crate::alist2strm::runner::largest(e.1)),
            set_of(r.1@) == self.produced() + r.0@.map_values(|p: AlistPath| task_local_path(task.cfg(), p)).to_set(),
            r.2 == (RunCounters { bdmv_selected_count: r.0@.len() as usize, ..self.count() }),
    {
        let Scan { stack: _, local_paths, bdmv, counters } = self;
        let ghost produced = set_of(local_paths@);
        let selected = bdmv.finalize();
        let mut paths = local_paths;
        let mut counters = counters;
        counters.bdmv_selected_count = selected.len();
        let ghost cfg = task.cfg();
        let mut i: usize = 0;
        assert(selected@.take(0).map_values(|p: AlistPath| task_local_path(cfg, p)).to_set() =~= Set::<Seq<char>>::empty());
        assert(set_of(paths@) =~= produced + selected@.take(0).map_values(|p: AlistPath| task_local_path(cfg, p)).to_set());
        while i < selected.len()
            invariant
                i <= selected@.len(),
                cfg == task.cfg(),
                set_of(paths@) == produced + selected@.take(i as int).map_values(|p: AlistPath| task_local_path(cfg, p)).to_set(),
            decreases selected.len() - i,
        {
            let l = task.local_path(&selected[i]);
            let ghost old_paths = paths@;
            paths.push(l);
            proof {
                crate::alist2strm::protection::lemma_set_of_push(old_paths, l);
                let f = |p: AlistPath| task_local_path(cfg, p);
                assert(selected@.take(i + 1).map_values(f) =~= selected@.take(i as int).map_values(f).push(l@));
                crate::text::lemma_to_set_push(selected@.take(i as int).map_values(f), l@);
            }
            i += 1;
            assert(set_of(paths@) =~= produced + selected@.take(i as int).map_values(|p: AlistPath| task_local_path(cfg, p)).to_set());
        }
        assert(selected@.take(selected@.len() as int) == selected@);
        (selected, paths, counters)
    }
}

/// Where a path lands locally under a task (a Blu-ray stream as its disc's title).
pub open spec fn task_local_path(cfg: crate::alist2strm::Config, p: AlistPath) -> Seq<char> {
    local_path_of(p.name@, p.full_path@, cfg.source_dir@, cfg.target_dir@, cfg.flatten_mode,
        if is_bdmv_stream(p.full_path@, p.name@) {
            bdmv_root_of(p.full_path@)
        } else {
            None
        })
}

/// The next step of processing a path: fetch the raw link when the mode
/// needs it and it is missing; else write the `.strm` content of a path whose
/// local file is a `.strm` file, or download a companion file.
pub fn process_step(task: &Alist2Strm, server_url: &str, path: &AlistPath) -> (r: ProcessStep)
    ensures
        task.cfg().mode == Mode::RawURL && path.raw_url is None ==> r is NeedRawUrl,
        !(task.cfg().mode == Mode::RawURL && path.raw_url is None) ==> ({
            let local = task_local_path(task.cfg(), *path);
            &&& is_strm(local) ==> (match r {
                ProcessStep::WriteStrm { local_path, content } => local_path@ == local
                    && crate::alist2strm::runner::strm_content_of(task.cfg(), server_url@, *path) == Some(content@),
                ProcessStep::EmptyContent => crate::alist2strm::runner::strm_content_of(task.cfg(), server_url@, *path) is None,
                _ => false,
            })
            &&& !is_strm(local) ==> (r matches ProcessStep::Download { local_path, url } && local_path@ == local
                && url@ == download_url_of(path.server_url@, path.base_path@, path.full_path@, path.sign@))
        }),
{
    if task.config().mode == Mode::RawURL && path.raw_url.is_none() {
        return ProcessStep::NeedRawUrl;
    }
    let local_path = task.local_path(path);
    if is_strm_vec(&chars_of(local_path.as_str())) {
        match task.strm_content(server_url, path) {
            Some(content) => ProcessStep::WriteStrm { local_path, content },
            None => ProcessStep::EmptyContent,
        }
    } else {
        ProcessStep::Download { local_path, url: path.download_url() }
    }
}

} // verus!
