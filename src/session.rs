use vstd::prelude::*;
use crate::scorer::{PathEntry, scored_model};
use crate::store::{models, texts, visible, rescored, visible_of, rescore_all};

verus! {

/// One input to a running session.
pub enum SessionEvent {
    /// The walker found a directory.
    Discovered(String),
    /// A character typed into the query.
    Char(char),
    /// Remove the last character of the query.
    Backspace,
    /// Move the cursor one row up.
    Up,
    /// Move the cursor one row down.
    Down,
    /// Accept the candidate under the cursor.
    Confirm,
    /// Leave without a result.
    Cancel,
    /// Nothing happened.
    Idle,
}

/// Where a session stands after an event.
pub enum Outcome {
    Running,
    Accepted(Option<String>),
    Cancelled,
}

/// The cursor kept inside `[0, count)`, or 0 when nothing is shown.
pub open spec fn clamp(selected: int, count: int) -> int {
    if count <= 0 {
        0
    } else if selected >= count {
        count - 1
    } else {
        selected
    }
}

/// The state of one picking session.
pub struct TUIApp {
    pub search_path: String,
    pub input: Vec<char>,
    pub selected: usize,
    pub paths: Vec<PathEntry>,
    pub visible_count: usize,
}

impl TUIApp {
    /// Every candidate is scored against the current query, the visible count is
    /// that of the visible set (0 only without candidates), and the cursor lies
    /// on a visible row (or is 0).
    pub open spec fn wf(&self) -> bool {
        &&& forall|i: int|
            0 <= i < self.paths@.len() ==> #[trigger] self.paths@[i]@ == scored_model(
                self.paths@[i].text@,
                self.input@,
            )
        &&& self.visible_count == visible(models(self.paths@)).len()
        &&& (self.visible_count == 0) == (self.paths@.len() == 0)
        &&& self.selected == clamp(self.selected as int, self.visible_count as int)
    }

    /// The candidates on show, as values.
    pub open spec fn shown(&self) -> Seq<crate::scorer::CandidateModel> {
        visible(models(self.paths@))
    }

    /// A session over `path` with no candidates and an empty query.
    pub fn new(path: String) -> (r: TUIApp)
        ensures
            r.wf(),
            r.search_path@ == path@,
            r.input@.len() == 0,
            r.paths@.len() == 0,
            r.selected == 0,
            r.visible_count == 0,
    {
        let r = TUIApp {
            search_path: path,
            input: Vec::new(),
            selected: 0,
            paths: Vec::new(),
            visible_count: 0,
        };
        assert(models(r.paths@) =~= Seq::empty());
        proof {
            lemma_visible_empty_iff(models(r.paths@));
        }
        r
    }

    /// The candidates on show, in discovery order: those with a positive score,
    /// or all of them when none has one.
    pub fn visible_paths(&self) -> (r: Vec<PathEntry>)
        ensures
            models(r@) == visible(models(self.paths@)),
    {
        visible_of(&self.paths)
    }

    /// Recounts the visible set and pulls the cursor back inside it.
    fn refresh(&mut self)
        requires
            forall|i: int|
                0 <= i < old(self).paths@.len() ==> #[trigger] old(self).paths@[i]@
                    == scored_model(old(self).paths@[i].text@, old(self).input@),
        ensures
            final(self).wf(),
            final(self).paths@ == old(self).paths@,
            final(self).input@ == old(self).input@,
            final(self).search_path@ == old(self).search_path@,
            final(self).selected == clamp(old(self).selected as int, final(self).visible_count as int),
    {
        let shown = self.visible_paths();
        proof {
            lemma_visible_empty_iff(models(self.paths@));
        }
        assert(models(shown@).len() == shown@.len());
        self.visible_count = shown.len();
        if self.visible_count == 0 {
            self.selected = 0;
        } else if self.selected >= self.visible_count {
            self.selected = self.visible_count - 1;
        }
    }

    /// Scores every candidate afresh against the query, then recounts and
    /// clamps the cursor.
    pub fn on_type(&mut self)
        ensures
            final(self).wf(),
            models(final(self).paths@) == rescored(models(old(self).paths@), old(self).input@),
            texts(final(self).paths@) == texts(old(self).paths@),
            final(self).input@ == old(self).input@,
            final(self).search_path@ == old(self).search_path@,
            final(self).selected == clamp(old(self).selected as int, final(self).visible_count as int),
            old(self).input@.len() == 0 ==> forall|i: int|
                0 <= i < final(self).paths@.len() ==> #[trigger] final(self).paths@[i].score == 0,
    {
        self.paths = rescore_all(&self.paths, &self.input);
        self.refresh();
    }

    /// Adds a discovered directory, scored against the current query.
    pub fn add_path(&mut self, path: String)
        requires
            old(self).wf(),
        ensures
            final(self).wf(),
            texts(final(self).paths@) == texts(old(self).paths@).push(path@),
            models(final(self).paths@) == models(old(self).paths@).push(
                scored_model(path@, old(self).input@),
            ),
            final(self).input@ == old(self).input@,
            final(self).search_path@ == old(self).search_path@,
            final(self).selected == clamp(old(self).selected as int, final(self).visible_count as int),
    {
        let mut e = PathEntry::new(path);
        e.calculate_score(&self.input);
        let ghost before = self.paths@;
        self.paths.push(e);
        assert(models(self.paths@) =~= models(before).push(e@));
        assert(texts(self.paths@) =~= texts(before).push(e.text@));
        self.refresh();
    }

    /// Takes one event while the session runs and says where it stands after.
    pub fn handle(&mut self, ev: SessionEvent) -> (r: Outcome)
        requires
            old(self).wf(),
        ensures
            final(self).wf(),
            final(self).search_path@ == old(self).search_path@,
            final(self).visible_count > 0 ==> final(self).selected < final(self).visible_count,
            ev is Backspace && final(self).input@.len() == 0 ==> final(self).shown() == models(
                final(self).paths@,
            ),
            match ev {
                SessionEvent::Discovered(p) => {
                    &&& r is Running
                    &&& texts(final(self).paths@) == texts(old(self).paths@).push(p@)
                    &&& final(self).paths@.len() == old(self).paths@.len() + 1
                    &&& final(self).input@ == old(self).input@
                    &&& final(self).selected == clamp(
                        old(self).selected as int,
                        final(self).visible_count as int,
                    )
                },
                SessionEvent::Char(c) => {
                    &&& r is Running
                    &&& texts(final(self).paths@) == texts(old(self).paths@)
                    &&& final(self).paths@.len() == old(self).paths@.len()
                    &&& final(self).input@ == old(self).input@.push(c)
                    &&& final(self).selected == clamp(
                        old(self).selected as int,
                        final(self).visible_count as int,
                    )
                },
                SessionEvent::Backspace => {
                    &&& r is Running
                    &&& texts(final(self).paths@) == texts(old(self).paths@)
                    &&& final(self).paths@.len() == old(self).paths@.len()
                    &&& final(self).input@ == (if old(self).input@.len() > 0 {
                        old(self).input@.drop_last()
                    } else {
                        old(self).input@
                    })
                    &&& final(self).selected == clamp(
                        old(self).selected as int,
                        final(self).visible_count as int,
                    )
                },
                SessionEvent::Up => {
                    &&& r is Running
                    &&& final(self).paths@ == old(self).paths@
                    &&& final(self).input@ == old(self).input@
                    &&& final(self).selected == (if old(self).selected > 0 {
                        old(self).selected - 1
                    } else {
                        old(self).selected as int
                    })
                },
                SessionEvent::Down => {
                    &&& r is Running
                    &&& final(self).paths@ == old(self).paths@
                    &&& final(self).input@ == old(self).input@
                    &&& final(self).selected == (if old(self).selected + 1 < old(self).visible_count {
                        old(self).selected + 1
                    } else {
                        old(self).selected as int
                    })
                },
                SessionEvent::Confirm => {
                    &&& r is Accepted
                    &&& final(self).paths@ == old(self).paths@
                    &&& final(self).input@ == old(self).input@
                    &&& final(self).selected == old(self).selected
                    &&& if old(self).paths@.len() == 0 {
                        r->Accepted_0 is None
                    } else {
                        r->Accepted_0 is Some && r->Accepted_0->Some_0@ == old(self).shown()[old(self).selected as int].text
                    }
                },
                SessionEvent::Cancel => {
                    &&& r is Cancelled
                    &&& final(self).paths@ == old(self).paths@
                    &&& final(self).input@ == old(self).input@
                    &&& final(self).selected == old(self).selected
                },
                SessionEvent::Idle => {
                    &&& r is Running
                    &&& final(self).paths@ == old(self).paths@
                    &&& final(self).input@ == old(self).input@
                    &&& final(self).selected == old(self).selected
                },
            },
    {
        match ev {
            SessionEvent::Discovered(p) => {
                self.add_path(p);
                Outcome::Running
            },
            SessionEvent::Char(c) => {
                self.input.push(c);
                self.on_type();
                Outcome::Running
            },
            SessionEvent::Backspace => {
                self.input.pop();
                self.on_type();
                proof {
                    if self.input@.len() == 0 {
                        crate::store::lemma_unscored_shows_all(models(self.paths@));
                    }
                }
                Outcome::Running
            },
            SessionEvent::Up => {
                if self.selected > 0 {
                    self.selected = self.selected - 1;
                }
                Outcome::Running
            },
            SessionEvent::Down => {
                if self.selected + 1 < self.visible_count {
                    self.selected = self.selected + 1;
                }
                Outcome::Running
            },
            SessionEvent::Confirm => {
                let shown = self.visible_paths();
                proof {
                    lemma_visible_empty_iff(models(self.paths@));
                }
                assert(models(shown@).len() == shown@.len());
                if self.selected < shown.len() {
                    assert(models(shown@)[self.selected as int] == shown@[self.selected as int]@);
                    Outcome::Accepted(Some(shown[self.selected].text.clone()))
                } else {
                    Outcome::Accepted(None)
                }
            },
            SessionEvent::Cancel => Outcome::Cancelled,
            SessionEvent::Idle => Outcome::Running,
        }
    }
}

/// The visible set is empty exactly when there are no candidates.
pub proof fn lemma_visible_empty_iff(s: Seq<crate::scorer::CandidateModel>)
    ensures
        (visible(s).len() == 0) == (s.len() == 0),
{
    if s.len() == 0 {
        assert(crate::store::matching(s) =~= Seq::empty());
    }
}

} // verus!
