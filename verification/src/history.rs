//! What the document looked like before each settled change, so that a
//! structural edit, or a burst of typing, can be taken back.
use vstd::prelude::*;

use crate::text::equal;

verus! {

/// How many steps back the editor remembers.
pub const HISTORY_DEPTH: usize = 200;

/// A document as it stood, and where the caret was at the time.
#[derive(Clone, Debug, PartialEq)]
pub struct Step {
    pub source: String,
    pub line: Option<usize>,
}

/// The steps that can be taken back, and those that have been.
#[derive(Debug, PartialEq)]
pub struct History {
    /// What the document looked like before each change, the last one last.
    past: Vec<Step>,
    /// What it looked like before each change was taken back.
    future: Vec<Step>,
    /// What it looked like when it last settled.
    settled: String,
}

/// What a step stands for.
pub struct Moment {
    pub source: Seq<char>,
    pub line: Option<usize>,
}

/// What a history stands for.
pub struct Timeline {
    pub past: Seq<Moment>,
    pub future: Seq<Moment>,
    pub settled: Seq<char>,
}

pub open spec fn moment(step: Step) -> Moment {
    Moment { source: step.source@, line: step.line }
}

pub open spec fn moments(steps: Seq<Step>) -> Seq<Moment> {
    steps.map_values(|step: Step| moment(step))
}

/// A timeline that has been given a document that settled.
pub open spec fn settled_at(t: Timeline, current: Seq<char>, line: Option<usize>) -> Timeline {
    if t.settled == current {
        t
    } else {
        let longer = t.past.push(Moment { source: t.settled, line });
        Timeline {
            past: if longer.len() > HISTORY_DEPTH {
                longer.skip(1)
            } else {
                longer
            },
            future: Seq::empty(),
            settled: current,
        }
    }
}

/// What there is to go to, back or forth.
pub open spec fn next_step(t: Timeline, back: bool) -> Option<Moment> {
    let from = if back {
        t.past
    } else {
        t.future
    };
    if from.len() == 0 {
        None
    } else {
        Some(from.last())
    }
}

/// A timeline after a step back or forth from the document `current`.
pub open spec fn travelled(
    t: Timeline,
    back: bool,
    current: Seq<char>,
    line: Option<usize>,
) -> Timeline {
    match next_step(t, back) {
        Some(step) => {
            let here = Moment { source: current, line };
            if back {
                Timeline {
                    past: t.past.drop_last(),
                    future: t.future.push(here),
                    settled: step.source,
                }
            } else {
                Timeline {
                    past: t.past.push(here),
                    future: t.future.drop_last(),
                    settled: step.source,
                }
            }
        },
        None => t,
    }
}

impl History {
    /// What the history stands for.
    pub closed spec fn timeline(self) -> Timeline {
        Timeline {
            past: moments(self.past@),
            future: moments(self.future@),
            settled: self.settled@,
        }
    }

    /// Whether the history remembers no more than it should.
    pub open spec fn bounded(self) -> bool {
        self.timeline().past.len() + self.timeline().future.len() <= HISTORY_DEPTH
    }

    /// The history of a document that has not changed yet.
    pub fn new(source: &str) -> (r: Self)
        ensures
            r.timeline() == (Timeline {
                past: Seq::empty(),
                future: Seq::empty(),
                settled: source@,
            }),
            r.bounded(),
    {
        let r = History { past: Vec::new(), future: Vec::new(), settled: source.to_string() };
        proof {
            assert(r.timeline().past == Seq::<Moment>::empty());
            assert(r.timeline().future == Seq::<Moment>::empty());
        }
        r
    }

    /// What the document looked like when it last settled.
    pub fn settled(&self) -> (r: &str)
        ensures
            r@ == self.timeline().settled,
    {
        self.settled.as_str()
    }

    /// How many steps there are to go back, and to go forth.
    pub fn depth(&self) -> (r: (usize, usize))
        ensures
            r.0 == self.timeline().past.len(),
            r.1 == self.timeline().future.len(),
    {
        (self.past.len(), self.future.len())
    }

    /// Records that the document has settled, with the caret on `line`.
    ///
    /// One step per pause in the typing, rather than per keystroke: where a
    /// change settled is the same place undo should stop.
    pub fn settle(&mut self, current: &str, line: Option<usize>)
        requires
            old(self).bounded(),
        ensures
            final(self).timeline() == settled_at(old(self).timeline(), current@, line),
            final(self).bounded(),
    {
        let ghost before = self.timeline();
        if equal(&self.settled, current) {
            return;
        }
        let step = Step { source: self.settled.clone(), line };
        let ghost added = moment(step);
        self.past.push(step);
        assert(moments(self.past@) == before.past.push(added));
        if self.past.len() > HISTORY_DEPTH {
            let ghost longer = moments(self.past@);
            let _ = self.past.remove(0);
            assert(moments(self.past@) == longer.skip(1));
        }
        self.future.clear();
        self.settled = current.to_string();
        proof {
            assert(moments(self.future@) == Seq::<Moment>::empty());
            assert(self.timeline() == settled_at(before, current@, line));
        }
    }

    /// Goes a step back, or a step forth again, from the document `current`
    /// with the caret on `line`: gives the document to go to.
    ///
    /// The move is not recorded as a change of its own.
    pub fn travel(&mut self, back: bool, current: &str, line: Option<usize>) -> (r: Option<Step>)
        requires
            old(self).bounded(),
        ensures
            final(self).timeline() == travelled(old(self).timeline(), back, current@, line),
            final(self).bounded(),
            match next_step(old(self).timeline(), back) {
                Some(step) => r is Some && moment(r->0) == step,
                None => r is None,
            },
    {
        let ghost before = self.timeline();
        let taken = if back {
            self.past.pop()
        } else {
            self.future.pop()
        };
        match taken {
            Some(step) => {
                let here = Step { source: current.to_string(), line };
                let ghost added = moment(here);
                if back {
                    assert(moments(self.past@) == before.past.drop_last());
                    self.future.push(here);
                    assert(moments(self.future@) == before.future.push(added));
                } else {
                    assert(moments(self.future@) == before.future.drop_last());
                    self.past.push(here);
                    assert(moments(self.past@) == before.past.push(added));
                }
                self.settled = step.source.clone();
                proof {
                    assert(moment(step) == next_step(before, back)->0);
                    assert(self.timeline() == travelled(before, back, current@, line));
                }
                Some(step)
            },
            None => {
                assert(self.timeline() == before);
                None
            },
        }
    }
}

/// Going back and then forth again ends where it began: with the document and
/// the caret as they were, and the same steps ahead. The same holds of going
/// forth and then back.
pub proof fn law_there_and_back(
    t: Timeline,
    back: bool,
    current: Seq<char>,
    line: Option<usize>,
)
    requires
        next_step(t, back) is Some,
    ensures
        ({
            let step = next_step(t, back)->0;
            let there = travelled(t, back, current, line);
            let again = travelled(there, !back, step.source, step.line);
            &&& next_step(there, !back) == Some(Moment { source: current, line })
            &&& again.past == t.past
            &&& again.future == t.future
            &&& again.settled == current
        }),
{
    let step = next_step(t, back)->0;
    let there = travelled(t, back, current, line);
    let again = travelled(there, !back, step.source, step.line);
    if back {
        assert(there.future.drop_last() == t.future);
        assert(t.past.drop_last().push(step) == t.past);
    } else {
        assert(there.past.drop_last() == t.past);
        assert(t.future.drop_last().push(step) == t.future);
    }
}

/// Taking a change back gives the document as it was before the change.
pub proof fn law_change_taken_back(
    t: Timeline,
    changed: Seq<char>,
    line: Option<usize>,
)
    requires
        t.settled != changed,
    ensures
        next_step(settled_at(t, changed, line), true) == Some(Moment { source: t.settled, line }),
        next_step(settled_at(t, changed, line), false) is None,
{
}

/// Settling a changed document loses none of the steps that were there, but for
/// the oldest once there are as many as are remembered; there is then nothing
/// to go forth to. A document that has not changed is no change.
pub proof fn law_settling_keeps_the_past(t: Timeline, changed: Seq<char>, line: Option<usize>)
    ensures
        HISTORY_DEPTH == 200,
        t.settled == changed ==> settled_at(t, changed, line) == t,
        t.settled != changed ==> {
            let now = settled_at(t, changed, line);
            &&& now.settled == changed
            &&& now.future.len() == 0
            &&& now.past.len() > 0
            &&& now.past.last() == (Moment { source: t.settled, line })
            &&& t.past.len() < 200 ==> now.past.drop_last() == t.past
            &&& t.past.len() >= 200 ==> now.past.drop_last() == t.past.drop_first()
        },
{
    let longer = t.past.push(Moment { source: t.settled, line });
    assert(longer.drop_last() == t.past);
    if t.past.len() >= 200 {
        assert(longer.skip(1).drop_last() == t.past.drop_first());
    }
}

/// A timeline that has been given one settled document after another.
pub open spec fn settled_through(t: Timeline, documents: Seq<Moment>) -> Timeline
    decreases documents.len(),
{
    if documents.len() == 0 {
        t
    } else {
        let last = documents.last();
        settled_at(settled_through(t, documents.drop_last()), last.source, last.line)
    }
}

/// A timeline after `n` steps back, each from the document it had settled on.
pub open spec fn taken_back(t: Timeline, n: nat) -> Timeline
    decreases n,
{
    if n == 0 {
        t
    } else {
        let u = taken_back(t, (n - 1) as nat);
        travelled(u, true, u.settled, None)
    }
}

/// What a document was, `i` documents in, when it started as `first`.
pub open spec fn document_before(first: Seq<char>, documents: Seq<Moment>, i: int) -> Seq<char> {
    if i == 0 {
        first
    } else {
        documents[i - 1].source
    }
}

/// As many changes as are remembered can be taken back one by one: `k` steps
/// back from the last of some changes is the document that stood before the
/// last `k` of them, and all the way back is the first document.
pub proof fn law_changes_taken_back_one_by_one(
    t: Timeline,
    documents: Seq<Moment>,
    k: int,
)
    requires
        t.past.len() + documents.len() <= 200,
        forall|i: int|
            0 <= i < documents.len() ==> (#[trigger] documents[i]).source != document_before(
                t.settled,
                documents,
                i,
            ),
        0 < k <= documents.len(),
    ensures
        ({
            let n = documents.len() as int;
            let there = taken_back(settled_through(t, documents), k as nat);
            &&& there.settled == document_before(t.settled, documents, n - k)
            &&& there.past.len() == t.past.len() + n - k
            &&& there.past.take(t.past.len() as int) == t.past
            &&& there.future.len() == k
        }),
{
    let n = documents.len() as int;
    lemma_settled_through(t, documents);
    let now = settled_through(t, documents);
    lemma_taken_back(now, k as nat);
    assert(now.past[t.past.len() + (n - k)].source == document_before(
        t.settled,
        documents,
        n - k,
    ));
    assert(now.past.take(now.past.len() - k).take(t.past.len() as int) == t.past);
    if n > 0 {
        law_settling_keeps_the_past(
            settled_through(t, documents.drop_last()),
            documents.last().source,
            documents.last().line,
        );
    }
}

proof fn lemma_settled_through(t: Timeline, documents: Seq<Moment>)
    requires
        t.past.len() + documents.len() <= 200,
        forall|i: int|
            0 <= i < documents.len() ==> (#[trigger] documents[i]).source != document_before(
                t.settled,
                documents,
                i,
            ),
    ensures
        ({
            let n = documents.len() as int;
            let now = settled_through(t, documents);
            &&& now.settled == document_before(t.settled, documents, n)
            &&& now.past.len() == t.past.len() + n
            &&& now.past.take(t.past.len() as int) == t.past
            &&& forall|i: int|
                0 <= i < n ==> (#[trigger] now.past[t.past.len() + i]).source == document_before(
                    t.settled,
                    documents,
                    i,
                )
            &&& n > 0 ==> now.future.len() == 0
        }),
    decreases documents.len(),
{
    if documents.len() == 0 {
        assert(t.past.take(t.past.len() as int) == t.past);
    } else {
        let less = documents.drop_last();
        let last = documents.last();
        let n = documents.len() as int;
        assert forall|i: int| 0 <= i < less.len() implies (#[trigger] less[i]).source
            != document_before(t.settled, less, i) by {
            assert(less[i] == documents[i]);
            assert(document_before(t.settled, less, i) == document_before(
                t.settled,
                documents,
                i,
            ));
        }
        lemma_settled_through(t, less);
        let before = settled_through(t, less);
        let now = settled_through(t, documents);
        assert(documents[n - 1] == last);
        assert(before.settled == document_before(t.settled, documents, n - 1));
        law_settling_keeps_the_past(before, last.source, last.line);
        assert(now.past.drop_last() == before.past);
        assert(now.past.take(t.past.len() as int) == before.past.take(t.past.len() as int));
        assert forall|i: int| 0 <= i < n implies (#[trigger] now.past[t.past.len() + i]).source
            == document_before(t.settled, documents, i) by {
            if i < n - 1 {
                assert(now.past[t.past.len() + i] == now.past.drop_last()[t.past.len() + i]);
                assert(document_before(t.settled, less, i) == document_before(
                    t.settled,
                    documents,
                    i,
                ));
            }
        }
    }
}

proof fn lemma_taken_back(t: Timeline, n: nat)
    requires
        n <= t.past.len(),
    ensures
        taken_back(t, n).past == t.past.take(t.past.len() - n),
        taken_back(t, n).future.len() == t.future.len() + n,
        n > 0 ==> taken_back(t, n).settled == t.past[t.past.len() - n].source,
    decreases n,
{
    if n == 0 {
        assert(t.past.take(t.past.len() as int) == t.past);
    } else {
        lemma_taken_back(t, (n - 1) as nat);
        let u = taken_back(t, (n - 1) as nat);
        law_travel_moves_one_step(u, true, u.settled, None);
        assert(u.past.last() == t.past[t.past.len() - n]);
        assert(u.past.drop_last() == t.past.take(t.past.len() - n));
    }
}

/// Going back takes the last step off the past and puts the document that was
/// left on top of the future, and so does going forth with the two the other
/// way round. Where there is no step, nothing moves.
pub proof fn law_travel_moves_one_step(
    t: Timeline,
    back: bool,
    current: Seq<char>,
    line: Option<usize>,
)
    ensures
        ({
            let now = travelled(t, back, current, line);
            let (from, to) = if back {
                (t.past, t.future)
            } else {
                (t.future, t.past)
            };
            let (left, grown) = if back {
                (now.past, now.future)
            } else {
                (now.future, now.past)
            };
            &&& next_step(t, back) is Some <==> from.len() > 0
            &&& from.len() == 0 ==> now == t
            &&& from.len() > 0 ==> {
                &&& next_step(t, back)->0 == from[from.len() - 1]
                &&& now.settled == from[from.len() - 1].source
                &&& left == from.take(from.len() - 1)
                &&& grown.len() == to.len() + 1
                &&& grown.take(to.len() as int) == to
                &&& grown[to.len() as int] == (Moment { source: current, line })
            }
        }),
{
    let from = if back {
        t.past
    } else {
        t.future
    };
    let to = if back {
        t.future
    } else {
        t.past
    };
    if from.len() > 0 {
        assert(to.push(Moment { source: current, line }).take(to.len() as int) == to);
        assert(from.drop_last() == from.take(from.len() - 1));
    }
}

} // verus!
