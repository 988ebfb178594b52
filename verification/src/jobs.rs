//! The layout the shell reports, and the end of a job.

use vstd::prelude::*;
use crate::text::views;
use crate::show::{decimal, push_decimal};
use crate::managers::manager;
use crate::catalog::Row;
use crate::app::{App, Effect, Job, failed_text, finished_text, job_view, join_with, log_kept, rescanned, scrolled};

verus! {

impl App {
    /// Called by the shell when the terminal is resized. Focus cannot stay
    /// on a sidebar the layout dropped, or keys would change categories unseen.
    pub fn set_layout(&mut self, page: usize, sidebar: bool)
        requires
            old(self).wf(),
        ensures
            final(self).wf(),
            if page != old(self).page {
                let (s, o) = scrolled(old(self).selected as int, old(self).offset as int, old(self).rows().len() as int, page as int);
                *final(self) == (App {
                    sidebar_visible: sidebar,
                    sidebar_focused: old(self).sidebar_focused && sidebar,
                    page,
                    selected: s as usize,
                    offset: o as usize,
                    ..*old(self)
                })
            } else {
                *final(self) == (App { sidebar_visible: sidebar, sidebar_focused: old(self).sidebar_focused && sidebar, ..*old(self) })
            },
    {
        self.sidebar_visible = sidebar;
        self.sidebar_focused = self.sidebar_focused && sidebar;
        if self.page != page {
            self.page = page;
            self.scroll_into_view();
        }
    }
}


/// What the end of the running job does: the status says how it went, its
/// manager is rescanned, and the next queued job starts.
pub open spec fn job_done(before: App, after: App, ok: bool, effects: Seq<Effect>) -> bool {
    match before.running {
        None => after == before && effects.len() == 0,
        Some(job) => {
            let (pending, scan) = rescanned(before, Some(job.manager));
            &&& after.status@ == if ok {
                finished_text(job.title@)
            } else {
                failed_text(job.title@)
            }
            &&& after.scans_pending == pending
            &&& if before.queue@.len() == 0 {
                &&& after == (App { status: after.status, scans_pending: pending, running: None, queue: after.queue, ..before })
                &&& after.queue@ == before.queue@
                &&& effects == scan
            } else {
                let next = before.queue@[0];
                &&& after == (App {
                    status: after.status,
                    scans_pending: pending,
                    running: after.running,
                    queue: after.queue,
                    log: after.log,
                    ..before
                })
                &&& after.queue@ == before.queue@.drop_first()
                &&& after.running matches Some(j) && job_view(j) == job_view(next)
                &&& after.log@.len() == log_kept(before.log@).len() + 1
                &&& after.log@.last()@ == "$ "@ + join_with(views(next.argv@), " "@)
                &&& after.log@.drop_last() == log_kept(before.log@)
                &&& effects == scan.push(Effect::Spawn(next))
            }
        },
    }
}

impl App {
    #[verifier::spinoff_prover]
    pub(crate) fn on_job_done(&mut self, ok: bool) -> (effects: Vec<Effect>)
        requires
            old(self).wf(),
        ensures
            job_done(*old(self), *final(self), ok, effects@),
            final(self).wf(),
    {
        let job = match self.running.take() {
            Some(j) => j,
            None => {
                return Vec::new();
            },
        };
        let mut status = String::from_str(if ok {
            "\u{2713} "
        } else {
            "\u{2717} "
        });
        status.append(job.title.as_str());
        status.append(if ok {
            " finished"
        } else {
            " failed (press v for the log)"
        });
        self.status = status;
        let mut effects = self.rescan(Some(job.manager));
        match self.queue.pop_front() {
            Some(next) => {
                let e = self.start(next);
                effects.push(e);
            },
            None => {},
        }
        effects
    }

    /// The shell reports the outcome of an `Effect::RunInTerminal` job.
    pub fn terminal_job_finished(&mut self, job: &Job, ok: bool) -> (effects: Vec<Effect>)
        requires
            old(self).wf(),
        ensures
            final(self).wf(),
            final(self).status@ == if ok {
                finished_text(job.title@)
            } else {
                "\u{2717} "@ + job.title@ + " failed"@
            },
            *final(self) == (App {
                dirty: true,
                status: final(self).status,
                scans_pending: rescanned(*old(self), Some(job.manager)).0,
                ..*old(self)
            }),
            effects@ == rescanned(*old(self), Some(job.manager)).1,
    {
        self.dirty = true;
        let mut status = String::from_str(if ok {
            "\u{2713} "
        } else {
            "\u{2717} "
        });
        status.append(job.title.as_str());
        status.append(if ok {
            " finished"
        } else {
            " failed"
        });
        self.status = status;
        self.rescan(Some(job.manager))
    }
}


/// What the status bar says is going on: the running job (with how many
/// wait behind it), else a refresh of the index, else a scan of what is
/// installed, else nothing.
pub open spec fn spec_activity(a: App) -> Option<Seq<char>> {
    match a.running {
        Some(job) => if a.queue@.len() == 0 {
            Some(job.title@)
        } else {
            Some(job.title@ + " (+"@ + decimal(a.queue@.len() as nat) + " queued)"@)
        },
        None => if a.refreshing {
            Some("refreshing index"@)
        } else if a.detecting || a.scans_pending > 0 {
            Some("scanning installed"@)
        } else {
            None
        },
    }
}

impl App {
    /// The activity the status bar shows.
    pub fn activity(&self) -> (r: Option<String>)
        ensures
            match r {
                Some(s) => spec_activity(*self) == Some(s@),
                None => spec_activity(*self) is None,
            },
    {
        match &self.running {
            Some(job) => {
                let mut s = String::new();
                s.append(job.title.as_str());
                if self.queue.len() > 0 {
                    s.append(" (+");
                    push_decimal(&mut s, self.queue.len() as u64);
                    s.append(" queued)");
                }
                Some(s)
            },
            None => if self.refreshing {
                Some(String::from_str("refreshing index"))
            } else if self.detecting || self.scans_pending > 0 {
                Some(String::from_str("scanning installed"))
            } else {
                None
            },
        }
    }
}


/// The mark beside a row of the list. A job on the row outranks the
/// installed mark: the running job's row spins, a queued job's row waits.
#[derive(Clone, Copy, Debug, PartialEq, Eq)]
pub enum RowMark {
    Running,
    Queued,
    Installed,
    Plain,
}

/// Whether a queued job is for `row`.
pub open spec fn queued_for(a: App, row: Row) -> bool {
    exists|i: int| 0 <= i < a.queue@.len() && (#[trigger] a.queue@[i]).row == row
}

/// The mark of `row`.
pub open spec fn spec_row_mark(a: App, row: Row) -> RowMark {
    if a.running matches Some(job) && job.row == row {
        RowMark::Running
    } else if queued_for(a, row) {
        RowMark::Queued
    } else if a.installed@.installed[row as int] != 0 {
        RowMark::Installed
    } else {
        RowMark::Plain
    }
}

/// What the list says when no row is in view: the index is on its way, or
/// there is none yet, or the filters hide every row.
pub open spec fn spec_empty_message(a: App) -> Seq<char> {
    if a.catalog@.rows() == 0 {
        if a.refreshing {
            "Downloading the index\u{2026}"@
        } else {
            "No index yet (press r to download it)"@
        }
    } else {
        "Nothing matches (press c to clear filters)"@
    }
}

impl App {
    /// The mark beside `row` in the list.
    pub fn row_mark(&self, row: Row) -> (r: RowMark)
        requires
            self.wf(),
            (row as int) < self.catalog@.rows(),
        ensures
            r == spec_row_mark(*self, row),
    {
        proof {
            reveal(crate::app::masks_ok);
        }
        let on_running = match &self.running {
            Some(job) => job.row == row,
            None => false,
        };
        if on_running {
            return RowMark::Running;
        }
        let mut i: usize = 0;
        while i < self.queue.len()
            invariant
                i <= self.queue@.len(),
                !on_running,
                on_running == (self.running matches Some(job) && job.row == row),
                forall|j: int| 0 <= j < i ==> (#[trigger] self.queue@[j]).row != row,
            decreases self.queue@.len() - i,
        {
            if self.queue[i].row == row {
                assert(queued_for(*self, row)) by {
                    assert(self.queue@[i as int].row == row);
                }
                return RowMark::Queued;
            }
            i += 1;
        }
        if self.installed.is_installed(row) {
            RowMark::Installed
        } else {
            RowMark::Plain
        }
    }

    /// What the list says when no row is in view.
    pub fn empty_message(&self) -> (r: &'static str)
        ensures
            r@ == spec_empty_message(*self),
    {
        if self.catalog.is_empty() {
            if self.refreshing {
                "Downloading the index\u{2026}"
            } else {
                "No index yet (press r to download it)"
            }
        } else {
            "Nothing matches (press c to clear filters)"
        }
    }
}

} // verus!
