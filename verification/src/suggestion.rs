//! Ranking of fuzzy hits, and the incremental-search session that drives
//! "type to narrow, arrow to browse, enter to commit".
//!
//! `rank` orders hits ascending by distance; hits tied on distance keep
//! their input order, which `find_within` delivers in dictionary order.
//! The session is a pure state machine: each command maps the current
//! state to the next and optionally emits an event for the caller.

use vstd::prelude::*;
use vstd::string::StrSliceExecFns;
use vstd::multiset::Multiset;
use crate::pair::{EmojiPair, PairView};
use crate::tree::{views_of, hits_view, spec_hits, BkTree};
use crate::types::ApplicationMode;

verus! {

broadcast use vstd::seq_lib::group_to_multiset_ensures;

/// How many suggestions the session shows at once.
pub const SUGGESTION_CAP: usize = 5;

/// The edit-distance tolerance of the incremental search.
pub const TOLERANCE: u32 = 5;

/// A hit tagged with its position in the hit list. `find_within` hands
/// hits over in dictionary order, so the tag is the dictionary rank.
pub open spec fn tagged(hits: Seq<(u32, PairView)>) -> Seq<(u32, int, PairView)> {
    Seq::new(hits.len(), |i: int| (hits[i].0, i, hits[i].1))
}

/// Ranking order: by distance first, position breaking ties.
pub open spec fn hit_le(a: (u32, int, PairView), b: (u32, int, PairView)) -> bool {
    a.0 < b.0 || (a.0 == b.0 && a.1 <= b.1)
}

/// Strict ranking order.
pub open spec fn hit_lt(a: (u32, int, PairView), b: (u32, int, PairView)) -> bool {
    a.0 < b.0 || (a.0 == b.0 && a.1 < b.1)
}

/// Ascending in the strict ranking order: later hits have larger distance
/// or, at equal distance, larger position.
pub open spec fn strictly_ranked(s: Seq<(u32, int, PairView)>) -> bool {
    forall|i: int, j: int| 0 <= i < j < s.len() ==> #[trigger] hit_lt(s[i], s[j])
}

/// Insert a tagged hit into a ranked sequence: it lands after every hit
/// that is not strictly above it, so equal distances keep position order.
pub open spec fn insert_ranked(s: Seq<(u32, int, PairView)>, x: (u32, int, PairView)) -> Seq<
    (u32, int, PairView),
>
    decreases s.len(),
{
    if s.len() == 0 {
        seq![x]
    } else if hit_le(s.last(), x) {
        s.push(x)
    } else {
        insert_ranked(s.drop_last(), x).push(s.last())
    }
}

/// Insertion sort in the ranking order.
pub open spec fn sort_ranked(s: Seq<(u32, int, PairView)>) -> Seq<(u32, int, PairView)>
    decreases s.len(),
{
    if s.len() == 0 {
        s
    } else {
        insert_ranked(sort_ranked(s.drop_last()), s.last())
    }
}

/// A ranked sequence with distances and tags dropped.
pub open spec fn strip_tags(s: Seq<(u32, int, PairView)>) -> Seq<PairView> {
    s.map_values(|t: (u32, int, PairView)| t.2)
}

/// What `rank` returns: the hits in ranking order, truncated to `cap`,
/// distances and tags dropped.
pub open spec fn spec_rank(hits: Seq<(u32, PairView)>, cap: int) -> Seq<PairView> {
    let sorted = sort_ranked(tagged(hits));
    let capped = if sorted.len() <= cap {
        sorted
    } else {
        sorted.take(cap)
    };
    strip_tags(capped)
}

/// Inserting adds exactly the new hit.
pub proof fn lemma_insert_ranked_multiset(s: Seq<(u32, int, PairView)>, x: (u32, int, PairView))
    ensures
        insert_ranked(s, x).len() == s.len() + 1,
        insert_ranked(s, x).to_multiset() == s.to_multiset().insert(x),
    decreases s.len(),
{
    if s.len() == 0 {
        assert(seq![x].to_multiset() =~= Seq::<(u32, int, PairView)>::empty().to_multiset()
            .insert(x)) by {
            assert(seq![x] == Seq::<(u32, int, PairView)>::empty().push(x));
        }
        assert(s.to_multiset() =~= Multiset::<(u32, int, PairView)>::empty());
    } else if hit_le(s.last(), x) {
    } else {
        lemma_insert_ranked_multiset(s.drop_last(), x);
        assert(s.drop_last().push(s.last()) =~= s);
        assert(s.drop_last().push(s.last()).to_multiset() == s.drop_last().to_multiset().insert(
            s.last(),
        ));
        assert(insert_ranked(s, x).to_multiset() == s.drop_last().to_multiset().insert(x).insert(
            s.last(),
        ));
        assert(s.to_multiset().insert(x) =~= s.drop_last().to_multiset().insert(x).insert(
            s.last(),
        ));
    }
}

/// Sorting permutes: same hits, same count.
pub proof fn lemma_sort_ranked_multiset(s: Seq<(u32, int, PairView)>)
    ensures
        sort_ranked(s).len() == s.len(),
        sort_ranked(s).to_multiset() == s.to_multiset(),
    decreases s.len(),
{
    if s.len() > 0 {
        lemma_sort_ranked_multiset(s.drop_last());
        lemma_insert_ranked_multiset(sort_ranked(s.drop_last()), s.last());
        assert(s.drop_last().push(s.last()) =~= s);
        assert(s.drop_last().push(s.last()).to_multiset() == s.drop_last().to_multiset().insert(
            s.last(),
        ));
    }
}

/// Inserting a hit whose position differs from every hit present keeps
/// the sequence strictly ranked.
pub proof fn lemma_insert_ranked_strict(s: Seq<(u32, int, PairView)>, x: (u32, int, PairView))
    requires
        strictly_ranked(s),
        forall|k: int| 0 <= k < s.len() ==> (#[trigger] s[k]).1 != x.1,
    ensures
        strictly_ranked(insert_ranked(s, x)),
    decreases s.len(),
{
    lemma_insert_ranked_multiset(s, x);
    if s.len() == 0 {
    } else if hit_le(s.last(), x) {
        let r = s.push(x);
        assert forall|i: int, j: int| 0 <= i < j < r.len() implies #[trigger] hit_lt(
            r[i],
            r[j],
        ) by {
            if j == r.len() - 1 {
                if i < s.len() - 1 {
                    assert(hit_lt(s[i], s[s.len() - 1]));
                }
                assert(s[i].1 != x.1);
            }
        }
    } else {
        let s1 = s.drop_last();
        lemma_insert_ranked_strict(s1, x);
        lemma_insert_ranked_multiset(s1, x);
        let inner = insert_ranked(s1, x);
        let r = inner.push(s.last());
        // everything in `inner` sits strictly below the displaced last hit
        assert forall|i: int| 0 <= i < inner.len() implies #[trigger] hit_lt(
            inner[i],
            s.last(),
        ) by {
            assert(inner.to_multiset().contains(inner[i]));
            if inner[i] == x {
                assert(hit_lt(x, s.last()));
            } else {
                assert(s1.to_multiset().contains(inner[i]));
                assert(s1.contains(inner[i]));
                let k = choose|k: int| 0 <= k < s1.len() && s1[k] == inner[i];
                assert(hit_lt(s[k], s[s.len() - 1]));
            }
        }
        assert forall|i: int, j: int| 0 <= i < j < r.len() implies #[trigger] hit_lt(
            r[i],
            r[j],
        ) by {
            if j < r.len() - 1 {
                assert(hit_lt(inner[i], inner[j]));
            }
        }
    }
}

/// Sorting a tagged hit list gives a strictly ranked sequence: distances
/// ascend, and hits tied on distance stay in position order.
pub proof fn lemma_sort_ranked_strict(s: Seq<(u32, int, PairView)>)
    requires
        forall|k1: int, k2: int|
            0 <= k1 < k2 < s.len() ==> (#[trigger] s[k1]).1 != (#[trigger] s[k2]).1,
    ensures
        strictly_ranked(sort_ranked(s)),
    decreases s.len(),
{
    if s.len() > 0 {
        let s1 = s.drop_last();
        lemma_sort_ranked_strict(s1);
        lemma_sort_ranked_multiset(s1);
        let inner = sort_ranked(s1);
        assert forall|k: int| 0 <= k < inner.len() implies (#[trigger] inner[k]).1
            != s.last().1 by {
            assert(inner.to_multiset().contains(inner[k]));
            assert(s1.to_multiset().contains(inner[k]));
            assert(s1.contains(inner[k]));
            let k2 = choose|k2: int| 0 <= k2 < s1.len() && s1[k2] == inner[k];
            assert(s[k2].1 != s[s.len() - 1].1);
        }
        lemma_insert_ranked_strict(inner, s.last());
    }
}


/// The view of a position-tagged executable hit list.
spec fn tags_view(s: Seq<(u32, usize, EmojiPair)>) -> Seq<(u32, int, PairView)> {
    s.map_values(|t: (u32, usize, EmojiPair)| (t.0, t.1 as int, t.2@))
}

/// Where the backwards scan stops is where the stable insert puts the
/// hit.
proof fn lemma_insert_ranked_at(s: Seq<(u32, int, PairView)>, x: (u32, int, PairView), j: int)
    requires
        0 <= j <= s.len(),
        forall|jj: int| j <= jj < s.len() ==> !hit_le(#[trigger] s[jj], x),
        j > 0 ==> hit_le(s[j - 1], x),
    ensures
        insert_ranked(s, x) == s.insert(j, x),
    decreases s.len(),
{
    if s.len() == 0 {
        assert(insert_ranked(s, x) =~= s.insert(0, x));
    } else if hit_le(s.last(), x) {
        assert(j == s.len()) by {
            if j < s.len() {
                assert(!hit_le(s[s.len() - 1], x));
            }
        }
        assert(insert_ranked(s, x) =~= s.insert(j, x));
    } else {
        assert(j < s.len());
        lemma_insert_ranked_at(s.drop_last(), x, j);
        assert(insert_ranked(s, x) =~= s.insert(j, x)) by {
            assert(insert_ranked(s, x) == s.drop_last().insert(j, x).push(s.last()));
            assert forall|idx: int| 0 <= idx < s.len() + 1 implies s.drop_last().insert(
                j,
                x,
            ).push(s.last())[idx] == s.insert(j, x)[idx] by {
                if idx < j {
                } else if idx == j {
                } else if idx < s.len() {
                }
            }
        }
    }
}

/// Rank hits: ascending by distance, distance ties in input order, at
/// most `cap` survivors, distances dropped.
pub fn rank(hits: &Vec<(u32, EmojiPair)>, cap: usize) -> (r: Vec<EmojiPair>)
    ensures
        views_of(r@) == spec_rank(hits_view(hits@), cap as int),
{
    let ghost t = tagged(hits_view(hits@));
    let mut sorted: Vec<(u32, usize, EmojiPair)> = Vec::new();
    let mut i: usize = 0;
    while i < hits.len()
        invariant
            i <= hits@.len(),
            t == tagged(hits_view(hits@)),
            tags_view(sorted@) == sort_ranked(t.take(i as int)),
        decreases hits@.len() - i,
    {
        let d = hits[i].0;
        let e = hits[i].1.duplicate();
        let ghost xv = t[i as int];
        proof {
            assert(xv == (d, i as int, e@));
        }
        let mut j: usize = sorted.len();
        let mut scanning: bool = true;
        while scanning && j > 0
            invariant
                j <= sorted@.len(),
                forall|jj: int|
                    j <= jj < sorted@.len() ==> !hit_le(#[trigger] tags_view(sorted@)[jj], xv),
                !scanning && j > 0 ==> hit_le(tags_view(sorted@)[j - 1], xv),
                xv.0 == d as u32,
                xv.1 == i as int,
            decreases (if scanning { 1int } else { 0int }), j,
        {
            let prev = &sorted[j - 1];
            if prev.0 > d || (prev.0 == d && prev.1 > i) {
                j -= 1;
            } else {
                scanning = false;
            }
        }
        proof {
            lemma_insert_ranked_at(tags_view(sorted@), xv, j as int);
        }
        let ghost before = sorted@;
        sorted.insert(j, (d, i, e));
        proof {
            assert(tags_view(sorted@) =~= tags_view(before).insert(j as int, xv));
            assert(t.take(i as int + 1).drop_last() =~= t.take(i as int));
            assert(tags_view(sorted@) == sort_ranked(t.take(i as int + 1)));
        }
        i += 1;
    }
    proof {
        assert(t.take(t.len() as int) =~= t);
    }
    sorted.truncate(cap);
    let mut r: Vec<EmojiPair> = Vec::new();
    let mut k: usize = 0;
    while k < sorted.len()
        invariant
            k <= sorted@.len(),
            views_of(r@) =~= strip_tags(tags_view(sorted@).take(k as int)),
        decreases sorted@.len() - k,
    {
        let p = sorted[k].2.duplicate();
        let ghost prev = r@;
        r.push(p);
        proof {
            let tv = tags_view(sorted@);
            assert(views_of(prev).len() == prev.len());
            assert(strip_tags(tv.take(k as int)).len() == k);
            assert(prev.len() == k);
            assert(r@ == prev.push(p));
            assert(r@.len() == k + 1);
            assert forall|idx: int| 0 <= idx < k + 1 implies views_of(r@)[idx] == strip_tags(
                tv.take(k as int + 1),
            )[idx] by {
                assert(strip_tags(tv.take(k as int + 1))[idx] == tv.take(k as int + 1)[idx].2);
                assert(views_of(r@)[idx] == r@[idx]@);
                if idx < k {
                    assert(r@[idx] == prev[idx]);
                    assert(views_of(prev)[idx] == strip_tags(tv.take(k as int))[idx]);
                } else {
                    assert(r@[idx] == p);
                    assert(tv[idx].2 == sorted@[idx].2@);
                }
            }
            assert(views_of(r@) =~= strip_tags(tv.take(k as int + 1)));
        }
        k += 1;
    }
    proof {
        let sr = sort_ranked(t);
        assert(tags_view(sorted@).take(sorted@.len() as int) =~= tags_view(sorted@));
        if sr.len() <= cap as int {
            assert(tags_view(sorted@) =~= sr);
        } else {
            assert(tags_view(sorted@) =~= sr.take(cap as int));
        }
        assert(views_of(r@) =~= spec_rank(hits_view(hits@), cap as int));
    }
    r
}



/// Ranking determinism: what `rank` returns is a function of the hits and
/// the cap alone — the capped prefix of `sort_ranked(tagged(hits))` — and
/// that sorted sequence is a permutation of the hits in which distances
/// ascend and hits tied on distance keep their input order, which is the
/// dictionary order `find_within` delivers.
pub proof fn lemma_rank_order(hits: Seq<(u32, PairView)>)
    ensures
        strictly_ranked(sort_ranked(tagged(hits))),
        sort_ranked(tagged(hits)).to_multiset() == tagged(hits).to_multiset(),
        sort_ranked(tagged(hits)).len() == hits.len(),
{
    lemma_sort_ranked_strict(tagged(hits));
    lemma_sort_ranked_multiset(tagged(hits));
}

/// An abstract input to the session: one keystroke's worth of intent.
#[derive(Clone, Copy)]
pub enum Command {
    InsertChar(char),
    DeleteBack,
    MoveUp,
    MoveDown,
    Commit,
    Cancel,
}

/// What a step hands back to the caller: a committed choice, or the wish
/// to stop. `None` means the run goes on.
pub enum SessionEvent {
    Selected(EmojiPair),
    Cancelled,
}

/// The mathematical value of a [`SessionEvent`].
pub ghost enum EventView {
    Selected(PairView),
    Cancelled,
}

/// The mathematical value of an event option.
pub open spec fn event_view(out: Option<SessionEvent>) -> Option<EventView> {
    match out {
        Some(SessionEvent::Selected(p)) => Some(EventView::Selected(p@)),
        Some(SessionEvent::Cancelled) => Some(EventView::Cancelled),
        None => None,
    }
}

/// The mathematical state of a session: the dictionary behind the index,
/// the typed query with its cursor, the mode, and the suggestion list.
#[verifier::ext_equal]
pub ghost struct SessionView {
    pub dict: Seq<PairView>,
    pub mode: ApplicationMode,
    pub search_term: Seq<char>,
    pub cursor: int,
    pub suggestions: Seq<PairView>,
}

/// What the suggestion list shows for a query: the fuzzy hits at the
/// fixed tolerance, ranked, capped.
pub open spec fn spec_suggestions(dict: Seq<PairView>, term: Seq<char>) -> Seq<PairView> {
    spec_rank(spec_hits(dict, term, TOLERANCE), SUGGESTION_CAP as int)
}

/// The session invariant: the cursor rides the end of the query, the
/// suggestion list is capped and only filled while a query exists, and a
/// selection index always points at a suggestion.
pub open spec fn session_wf(s: SessionView) -> bool {
    &&& s.cursor == s.search_term.len()
    &&& s.suggestions.len() <= SUGGESTION_CAP
    &&& (s.suggestions.len() > 0 ==> s.search_term.len() > 0)
    &&& (s.mode matches ApplicationMode::Select { current_selection } ==> current_selection
        < s.suggestions.len())
}

/// The transition table: a pure function from state and command to the
/// next state and an optional event. Typing edits the query, re-runs the
/// search and re-enters search mode; arrows browse with clamping and no
/// wraparound; commit emits the selection; cancel emits the wish to stop.
pub open spec fn spec_step(s: SessionView, cmd: Command) -> (SessionView, Option<EventView>) {
    match cmd {
        Command::InsertChar(c) => {
            let term = s.search_term.insert(s.cursor, c);
            (
                SessionView {
                    mode: ApplicationMode::Search,
                    search_term: term,
                    cursor: s.cursor + 1,
                    suggestions: spec_suggestions(s.dict, term),
                    ..s
                },
                None,
            )
        },
        Command::DeleteBack => {
            if s.cursor > 0 {
                let term = s.search_term.remove(s.cursor - 1);
                let sugg = if term.len() == 0 {
                    Seq::empty()
                } else {
                    spec_suggestions(s.dict, term)
                };
                (
                    SessionView {
                        mode: ApplicationMode::Search,
                        search_term: term,
                        cursor: s.cursor - 1,
                        suggestions: sugg,
                        ..s
                    },
                    None,
                )
            } else {
                (s, None)
            }
        },
        Command::MoveDown => match s.mode {
            ApplicationMode::Search => {
                if s.suggestions.len() > 0 {
                    (
                        SessionView {
                            mode: ApplicationMode::Select { current_selection: 0 },
                            ..s
                        },
                        None,
                    )
                } else {
                    (s, None)
                }
            },
            ApplicationMode::Select { current_selection } => {
                let next = if current_selection + 1 < s.suggestions.len() {
                    (current_selection + 1) as usize
                } else {
                    current_selection
                };
                (
                    SessionView {
                        mode: ApplicationMode::Select { current_selection: next },
                        ..s
                    },
                    None,
                )
            },
        },
        Command::MoveUp => match s.mode {
            ApplicationMode::Search => (s, None),
            ApplicationMode::Select { current_selection } => {
                let prev = if current_selection > 0 {
                    (current_selection - 1) as usize
                } else {
                    0
                };
                (
                    SessionView {
                        mode: ApplicationMode::Select { current_selection: prev },
                        ..s
                    },
                    None,
                )
            },
        },
        Command::Commit => match s.mode {
            ApplicationMode::Search => (s, None),
            ApplicationMode::Select { current_selection } => (
                s,
                Some(EventView::Selected(s.suggestions[current_selection as int])),
            ),
        },
        Command::Cancel => (s, Some(EventView::Cancelled)),
    }
}

/// The starting state: search mode, nothing typed, nothing suggested.
pub open spec fn spec_new_session(dict: Seq<PairView>) -> SessionView {
    SessionView {
        dict,
        mode: ApplicationMode::Search,
        search_term: Seq::empty(),
        cursor: 0,
        suggestions: Seq::empty(),
    }
}

/// The ranked list never exceeds the cap.
pub proof fn lemma_spec_rank_len(hits: Seq<(u32, PairView)>, cap: int)
    requires
        cap >= 0,
    ensures
        spec_rank(hits, cap).len() <= cap,
{
    lemma_sort_ranked_multiset(tagged(hits));
}

/// The interactive session: the index it queries, the mode, the query
/// text with its cursor, and the suggestions on show.
pub struct EmojiCarousel {
    pub tree: BkTree,
    pub mode: ApplicationMode,
    pub search_term: Vec<char>,
    pub cursor: usize,
    pub suggestions: Vec<EmojiPair>,
}

impl View for EmojiCarousel {
    type V = SessionView;

    open spec fn view(&self) -> SessionView {
        SessionView {
            dict: self.tree@,
            mode: self.mode,
            search_term: self.search_term@,
            cursor: self.cursor as int,
            suggestions: views_of(self.suggestions@),
        }
    }
}

impl EmojiCarousel {
    /// Well-formed: a well-formed index under the session invariant.
    pub open spec fn wf(&self) -> bool {
        &&& self.tree.wf()
        &&& session_wf(self@)
    }

    /// A fresh session over the given index.
    pub fn new(tree: BkTree) -> (r: EmojiCarousel)
        requires
            tree.wf(),
        ensures
            r.wf(),
            r@ == spec_new_session(tree@),
    {
        let ghost dv = tree@;
        let r = EmojiCarousel {
            tree,
            mode: ApplicationMode::Search,
            search_term: Vec::new(),
            cursor: 0,
            suggestions: Vec::new(),
        };
        proof {
            assert(views_of(r.suggestions@) =~= Seq::<PairView>::empty());
            assert(r@ =~= spec_new_session(dv));
        }
        r
    }

    /// Re-run the search for the current query and replace the
    /// suggestions with the ranked, capped result.
    fn update_suggestions(&mut self)
        requires
            old(self).tree.wf(),
        ensures
            final(self).tree == old(self).tree,
            final(self).mode == old(self).mode,
            final(self).search_term == old(self).search_term,
            final(self).cursor == old(self).cursor,
            views_of(final(self).suggestions@) == spec_suggestions(
                old(self).tree@,
                old(self).search_term@,
            ),
    {
        let hits = self.tree.find_within_chars(&self.search_term, TOLERANCE);
        let ranked = rank(&hits, SUGGESTION_CAP);
        self.suggestions = ranked;
    }

    /// Feed one command through the transition table.
    pub fn handle_command(&mut self, cmd: Command) -> (out: Option<SessionEvent>)
        requires
            old(self).wf(),
        ensures
            final(self).wf(),
            final(self).tree == old(self).tree,
            final(self)@ == spec_step(old(self)@, cmd).0,
            event_view(out) == spec_step(old(self)@, cmd).1,
    {
        proof {
            lemma_step_preserves_wf(old(self)@, cmd);
        }
        match cmd {
            Command::InsertChar(c) => {
                self.search_term.insert(self.cursor, c);
                self.cursor = self.search_term.len();
                self.mode = ApplicationMode::Search;
                self.update_suggestions();
                proof {
                    assert(final(self)@ =~= spec_step(old(self)@, cmd).0);
                }
                None
            },
            Command::DeleteBack => {
                if self.cursor > 0 {
                    self.search_term.remove(self.cursor - 1);
                    self.cursor = self.cursor - 1;
                    self.mode = ApplicationMode::Search;
                    if self.search_term.len() == 0 {
                        self.suggestions = Vec::new();
                        proof {
                            assert(views_of(final(self).suggestions@)
                                =~= Seq::<PairView>::empty());
                            assert(final(self)@ =~= spec_step(old(self)@, cmd).0);
                        }
                    } else {
                        self.update_suggestions();
                        proof {
                            assert(final(self)@ =~= spec_step(old(self)@, cmd).0);
                        }
                    }
                }
                None
            },
            Command::MoveDown => {
                match self.mode {
                    ApplicationMode::Search => {
                        if self.suggestions.len() > 0 {
                            self.mode = ApplicationMode::Select { current_selection: 0 };
                        }
                    },
                    ApplicationMode::Select { current_selection } => {
                        if current_selection + 1 < self.suggestions.len() {
                            self.mode = ApplicationMode::Select {
                                current_selection: current_selection + 1,
                            };
                        }
                    },
                }
                None
            },
            Command::MoveUp => {
                match self.mode {
                    ApplicationMode::Search => {},
                    ApplicationMode::Select { current_selection } => {
                        if current_selection > 0 {
                            self.mode = ApplicationMode::Select {
                                current_selection: current_selection - 1,
                            };
                        }
                    },
                }
                None
            },
            Command::Commit => {
                match self.mode {
                    ApplicationMode::Search => None,
                    ApplicationMode::Select { current_selection } => {
                        let p = self.suggestions[current_selection].duplicate();
                        Some(SessionEvent::Selected(p))
                    },
                }
            },
            Command::Cancel => Some(SessionEvent::Cancelled),
        }
    }

    /// The suggestion the selection index rests on, if the session is in
    /// select mode.
    pub fn get_current_selection(&self) -> (r: Option<EmojiPair>)
        requires
            self.wf(),
        ensures
            match r {
                Some(p) => self.mode matches ApplicationMode::Select { current_selection }
                    && p@ == self@.suggestions[current_selection as int],
                None => self.mode is Search,
            },
    {
        match self.mode {
            ApplicationMode::Search => None,
            ApplicationMode::Select { current_selection } => Some(
                self.suggestions[current_selection].duplicate(),
            ),
        }
    }
}

/// The query less its final character; the empty query stays empty.
pub fn remove_last_char(search_term: &str) -> (r: String)
    ensures
        search_term@.len() > 0 ==> r@ == search_term@.drop_last(),
        search_term@.len() == 0 ==> r@ == Seq::<char>::empty(),
{
    let n = search_term.unicode_len();
    if n == 0 {
        String::new()
    } else {
        let sub = search_term.substring_char(0, n - 1);
        proof {
            assert(search_term@.subrange(0, n - 1) =~= search_term@.drop_last());
        }
        sub.to_owned()
    }
}

/// Any single command keeps the session invariant.
pub proof fn lemma_step_preserves_wf(s: SessionView, cmd: Command)
    requires
        session_wf(s),
    ensures
        session_wf(spec_step(s, cmd).0),
{
    match cmd {
        Command::InsertChar(c) => {
            let term = s.search_term.insert(s.cursor, c);
            lemma_spec_rank_len(spec_hits(s.dict, term, TOLERANCE), SUGGESTION_CAP as int);
        },
        Command::DeleteBack => {
            if s.cursor > 0 {
                let term = s.search_term.remove(s.cursor - 1);
                lemma_spec_rank_len(spec_hits(s.dict, term, TOLERANCE), SUGGESTION_CAP as int);
            }
        },
        _ => {},
    }
}

/// One arrow key: the suggestions and query stay put, the selection stays
/// inside the list, the ends never wrap, and in search mode with nothing
/// suggested the state does not move at all.
pub proof fn lemma_navigation_clamped(s: SessionView, cmd: Command)
    requires
        session_wf(s),
        cmd is MoveUp || cmd is MoveDown,
    ensures
        spec_step(s, cmd).0.suggestions == s.suggestions,
        spec_step(s, cmd).0.search_term == s.search_term,
        session_wf(spec_step(s, cmd).0),
        spec_step(s, cmd).0.mode matches ApplicationMode::Select { current_selection }
            ==> current_selection < s.suggestions.len(),
        s.mode is Search && s.suggestions.len() == 0 ==> spec_step(s, cmd).0 == s,
        cmd is MoveDown && (s.mode matches ApplicationMode::Select { current_selection }
            && current_selection == s.suggestions.len() - 1) ==> spec_step(s, cmd).0.mode
            == s.mode,
        cmd is MoveUp && (s.mode matches ApplicationMode::Select { current_selection }
            && current_selection == 0) ==> spec_step(s, cmd).0.mode == s.mode,
{
    lemma_step_preserves_wf(s, cmd);
}

/// Run a command sequence through the transition table.
pub open spec fn run_session(s: SessionView, cmds: Seq<Command>) -> SessionView
    decreases cmds.len(),
{
    if cmds.len() == 0 {
        s
    } else {
        run_session(spec_step(s, cmds[0]).0, cmds.drop_first())
    }
}

/// Any sequence of arrow keys leaves the suggestions untouched and the
/// selection index inside the list: browsing can never index out of
/// bounds, however long the sequence.
pub proof fn lemma_session_clamped(s: SessionView, cmds: Seq<Command>)
    requires
        session_wf(s),
        forall|i: int| 0 <= i < cmds.len() ==> (#[trigger] cmds[i]) is MoveUp || cmds[i]
            is MoveDown,
    ensures
        run_session(s, cmds).suggestions == s.suggestions,
        session_wf(run_session(s, cmds)),
        run_session(s, cmds).mode matches ApplicationMode::Select { current_selection }
            ==> current_selection < s.suggestions.len(),
    decreases cmds.len(),
{
    if cmds.len() > 0 {
        lemma_navigation_clamped(s, cmds[0]);
        lemma_session_clamped(spec_step(s, cmds[0]).0, cmds.drop_first());
    }
}

/// Editing while browsing always drops the session back into search mode:
/// a selection only exists while suggestions do, so the query is
/// non-empty and both kinds of edit go through.
pub proof fn lemma_edit_resets_mode(s: SessionView, c: char)
    requires
        session_wf(s),
        s.mode is Select,
    ensures
        spec_step(s, Command::InsertChar(c)).0.mode is Search,
        spec_step(s, Command::DeleteBack).0.mode is Search,
{
}

} // verus!
