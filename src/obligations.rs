//! A store that hands out a trait-obligation proof tree one level at a time.
//!
//! Storing a tree returns its root with the candidates expanded one level; each
//! nested goal that has candidates of its own is replaced by a summary (its
//! candidate count) and an opaque index, under which its own expanded view is
//! kept for a later lookup.
use vstd::prelude::*;
use vstd::string::StringExecFns;

verus! {

broadcast use vstd::map_lib::lemma_submap_of_trans;

/// One goal as the trait solver reports it, with every candidate fully nested.
#[derive(Debug, PartialEq, Eq)]
pub struct ProofTreeData {
    pub goal: String,
    pub result: String,
    pub depth: usize,
    pub candidates: Vec<CandidateData>,
}

/// One attempted proof of a goal, with the sub-goals that it gave rise to.
#[derive(Debug, PartialEq, Eq)]
pub struct CandidateData {
    pub kind: String,
    pub result: String,
    pub impl_header: Option<String>,
    pub nested_goals: Vec<ProofTreeData>,
}

/// The candidates of a goal in a view: only their number, or the list itself.
#[derive(Debug, PartialEq, Eq)]
pub enum Candidates {
    Count(usize),
    Candidates(Vec<GoalCandidate>),
}

/// A goal as handed to a caller.
#[derive(Debug, PartialEq, Eq)]
pub struct GoalTree {
    pub goal: String,
    pub result: String,
    pub goal_index: Option<String>,
    pub candidates: Candidates,
}

/// A candidate as handed to a caller: its nested goals are summaries.
#[derive(Debug, PartialEq, Eq)]
pub struct GoalCandidate {
    pub kind: String,
    pub result: String,
    pub impl_header: Option<String>,
    pub nested_goals: Vec<GoalTree>,
}

/// Mathematical form of a [`ProofTreeData`].
pub ghost struct ProofTreeView {
    pub goal: Seq<char>,
    pub result: Seq<char>,
    pub depth: nat,
    pub candidates: Seq<CandidateView>,
}

/// Mathematical form of a [`CandidateData`].
pub ghost struct CandidateView {
    pub kind: Seq<char>,
    pub result: Seq<char>,
    pub impl_header: Option<Seq<char>>,
    pub nested_goals: Seq<ProofTreeView>,
}

/// Mathematical form of [`Candidates`].
pub ghost enum CandidatesView {
    Count(nat),
    Listed(Seq<GoalCandidateView>),
}

/// Mathematical form of a [`GoalTree`].
pub ghost struct GoalTreeView {
    pub goal: Seq<char>,
    pub result: Seq<char>,
    pub goal_index: Option<Seq<char>>,
    pub candidates: CandidatesView,
}

/// Mathematical form of a [`GoalCandidate`].
pub ghost struct GoalCandidateView {
    pub kind: Seq<char>,
    pub result: Seq<char>,
    pub impl_header: Option<Seq<char>>,
    pub nested_goals: Seq<GoalTreeView>,
}

pub open spec fn text_opt(o: Option<String>) -> Option<Seq<char>> {
    match o {
        Some(s) => Some(s@),
        None => None,
    }
}

pub open spec fn proof_tree_view(t: ProofTreeData) -> ProofTreeView
    decreases t,
{
    ProofTreeView {
        goal: t.goal@,
        result: t.result@,
        depth: t.depth as nat,
        candidates: Seq::new(
            t.candidates@.len(),
            |i: int|
                if 0 <= i < t.candidates@.len() {
                    candidate_data_view(t.candidates@[i])
                } else {
                    CandidateView {
                        kind: Seq::empty(),
                        result: Seq::empty(),
                        impl_header: None,
                        nested_goals: Seq::empty(),
                    }
                },
        ),
    }
}

pub open spec fn candidate_data_view(c: CandidateData) -> CandidateView
    decreases c,
{
    CandidateView {
        kind: c.kind@,
        result: c.result@,
        impl_header: text_opt(c.impl_header),
        nested_goals: Seq::new(
            c.nested_goals@.len(),
            |j: int|
                if 0 <= j < c.nested_goals@.len() {
                    proof_tree_view(c.nested_goals@[j])
                } else {
                    ProofTreeView {
                        goal: Seq::empty(),
                        result: Seq::empty(),
                        depth: 0,
                        candidates: Seq::empty(),
                    }
                },
        ),
    }
}

pub open spec fn goal_tree_view(t: GoalTree) -> GoalTreeView
    decreases t,
{
    GoalTreeView {
        goal: t.goal@,
        result: t.result@,
        goal_index: text_opt(t.goal_index),
        candidates: match t.candidates {
            Candidates::Count(n) => CandidatesView::Count(n as nat),
            Candidates::Candidates(cs) => CandidatesView::Listed(goal_candidates_view(cs)),
        },
    }
}

pub open spec fn goal_candidates_view(cs: Vec<GoalCandidate>) -> Seq<GoalCandidateView>
    decreases cs,
{
    Seq::new(
        cs@.len(),
        |i: int|
            if 0 <= i < cs@.len() {
                goal_candidate_view(cs@[i])
            } else {
                GoalCandidateView {
                    kind: Seq::empty(),
                    result: Seq::empty(),
                    impl_header: None,
                    nested_goals: Seq::empty(),
                }
            },
    )
}

pub open spec fn goal_candidate_view(c: GoalCandidate) -> GoalCandidateView
    decreases c,
{
    GoalCandidateView {
        kind: c.kind@,
        result: c.result@,
        impl_header: text_opt(c.impl_header),
        nested_goals: Seq::new(
            c.nested_goals@.len(),
            |j: int|
                if 0 <= j < c.nested_goals@.len() {
                    goal_tree_view(c.nested_goals@[j])
                } else {
                    GoalTreeView {
                        goal: Seq::empty(),
                        result: Seq::empty(),
                        goal_index: None,
                        candidates: CandidatesView::Count(0),
                    }
                },
        ),
    }
}

impl View for ProofTreeData {
    type V = ProofTreeView;

    open spec fn view(&self) -> ProofTreeView {
        proof_tree_view(*self)
    }
}

impl View for CandidateData {
    type V = CandidateView;

    open spec fn view(&self) -> CandidateView {
        candidate_data_view(*self)
    }
}

impl View for GoalTree {
    type V = GoalTreeView;

    open spec fn view(&self) -> GoalTreeView {
        goal_tree_view(*self)
    }
}

impl View for GoalCandidate {
    type V = GoalCandidateView;

    open spec fn view(&self) -> GoalCandidateView {
        goal_candidate_view(*self)
    }
}

fn copy_text_opt(o: &Option<String>) -> (r: Option<String>)
    ensures
        text_opt(r) == text_opt(*o),
{
    match o {
        Some(s) => Some(s.clone()),
        None => None,
    }
}

fn copy_goal_tree(t: &GoalTree) -> (r: GoalTree)
    ensures
        r@ == t@,
    decreases t,
{
    let candidates = match &t.candidates {
        Candidates::Count(n) => Candidates::Count(*n),
        Candidates::Candidates(cs) => {
            let mut out: Vec<GoalCandidate> = Vec::new();
            let mut i: usize = 0;
            while i < cs.len()
                invariant
                    i <= cs@.len(),
                    out@.len() == i,
                    t.candidates == Candidates::Candidates(*cs),
                    forall|a: int| 0 <= a < i ==> goal_candidate_view(#[trigger] out@[a]) == goal_candidate_view(cs@[a]),
                decreases cs@.len() - i,
            {
                proof {
                    assert(decreases_to!(*t => t.candidates));
                    assert(decreases_to!(t.candidates => t.candidates->Candidates_0));
                    assert(decreases_to!(*cs => cs@[i as int]));
                }
                let c = copy_goal_candidate(&cs[i]);
                out.push(c);
                i = i + 1;
            }
            assert(goal_candidates_view(out) =~= goal_candidates_view(*cs));
            Candidates::Candidates(out)
        },
    };
    let r = GoalTree {
        goal: t.goal.clone(),
        result: t.result.clone(),
        goal_index: copy_text_opt(&t.goal_index),
        candidates,
    };
    r
}

fn copy_goal_candidate(c: &GoalCandidate) -> (r: GoalCandidate)
    ensures
        r@ == c@,
    decreases c,
{
    let mut goals: Vec<GoalTree> = Vec::new();
    let mut j: usize = 0;
    while j < c.nested_goals.len()
        invariant
            j <= c.nested_goals@.len(),
            goals@.len() == j,
            forall|b: int| 0 <= b < j ==> goal_tree_view(#[trigger] goals@[b]) == goal_tree_view(c.nested_goals@[b]),
        decreases c.nested_goals@.len() - j,
    {
        proof {
            assert(decreases_to!(*c => c.nested_goals@[j as int]));
        }
        let g = copy_goal_tree(&c.nested_goals[j]);
        goals.push(g);
        j = j + 1;
    }
    let r = GoalCandidate {
        kind: c.kind.clone(),
        result: c.result.clone(),
        impl_header: copy_text_opt(&c.impl_header),
        nested_goals: goals,
    };
    assert(r@.nested_goals =~= c@.nested_goals);
    r
}


/// `v` shows the goal `t` with its candidates listed one for one, and the
/// nested goals of each candidate summarized against `store`.
pub open spec fn lists(v: GoalTreeView, t: ProofTreeView, store: Map<Seq<char>, GoalTreeView>) -> bool
    decreases t, 0nat,
{
    &&& v.goal == t.goal
    &&& v.result == t.result
    &&& v.candidates is Listed
    &&& v.candidates->Listed_0.len() == t.candidates.len()
    &&& forall|i: int|
        0 <= i < t.candidates.len() ==> candidate_lists(
            #[trigger] v.candidates->Listed_0[i],
            t.candidates[i],
            store,
        )
}

/// `c` shows the candidate `tc`, each of its nested goals summarized.
pub open spec fn candidate_lists(
    c: GoalCandidateView,
    tc: CandidateView,
    store: Map<Seq<char>, GoalTreeView>,
) -> bool
    decreases tc, 0nat,
{
    &&& c.kind == tc.kind
    &&& c.result == tc.result
    &&& c.impl_header == tc.impl_header
    &&& c.nested_goals.len() == tc.nested_goals.len()
    &&& forall|j: int|
        0 <= j < tc.nested_goals.len() ==> summarizes(
            #[trigger] c.nested_goals[j],
            tc.nested_goals[j],
            store,
        )
}

/// `g` is the stand-in for the nested goal `t`: its text and result, the
/// number of its candidates, and, exactly when it has candidates, an index
/// under which `store` holds the expanded view of `t`.
pub open spec fn summarizes(g: GoalTreeView, t: ProofTreeView, store: Map<Seq<char>, GoalTreeView>) -> bool
    decreases t, 1nat,
{
    &&& g.goal == t.goal
    &&& g.result == t.result
    &&& g.candidates == CandidatesView::Count(t.candidates.len())
    &&& (g.goal_index is Some <==> t.candidates.len() > 0)
    &&& g.goal_index is Some ==> {
        let k = g.goal_index->0;
        &&& store.contains_key(k)
        &&& store[k].goal_index == Some(k)
        &&& lists(store[k], t, store)
    }
}

/// The view kept under an index: `t` listed one level deep, carrying an index
/// exactly when `t` has candidates.
pub open spec fn expands(v: GoalTreeView, t: ProofTreeView, store: Map<Seq<char>, GoalTreeView>) -> bool {
    &&& lists(v, t, store)
    &&& (v.goal_index is Some <==> t.candidates.len() > 0)
}

/// Whether the stand-in `g` for the nested goal `n` hands out index `x`:
/// `x` is its own index, or one that the view kept under it hands out.
pub open spec fn hands_out(
    g: GoalTreeView,
    n: ProofTreeView,
    store: Map<Seq<char>, GoalTreeView>,
    x: Seq<char>,
) -> bool
    decreases n, 1nat,
{
    match g.goal_index {
        Some(k) => x == k || (store.contains_key(k) && hands_out_below(store[k], n, store, x)),
        None => false,
    }
}

/// Whether the listed view `v` of `t` hands out index `x` through one of its
/// nested stand-ins.
pub open spec fn hands_out_below(
    v: GoalTreeView,
    t: ProofTreeView,
    store: Map<Seq<char>, GoalTreeView>,
    x: Seq<char>,
) -> bool
    decreases t, 0nat,
{
    exists|i: int, j: int|
        #![trigger t.candidates[i].nested_goals[j]]
        0 <= i < t.candidates.len() && 0 <= j < t.candidates[i].nested_goals.len() && hands_out(
            v.candidates->Listed_0[i].nested_goals[j],
            t.candidates[i].nested_goals[j],
            store,
            x,
        )
}

/// The indices that the listed view `v` of `t` hands out, at any depth: those
/// of its nested stand-ins, and those that the views kept under them hand out.
pub open spec fn handed_out(
    v: GoalTreeView,
    t: ProofTreeView,
    store: Map<Seq<char>, GoalTreeView>,
) -> Set<Seq<char>> {
    Set::new(|x: Seq<char>| hands_out_below(v, t, store, x))
}

proof fn lemma_hands_out_grow(
    g: GoalTreeView,
    n: ProofTreeView,
    m1: Map<Seq<char>, GoalTreeView>,
    m2: Map<Seq<char>, GoalTreeView>,
    x: Seq<char>,
)
    requires
        summarizes(g, n, m1),
        m1.submap_of(m2),
    ensures
        hands_out(g, n, m2, x) == hands_out(g, n, m1, x),
        hands_out(g, n, m1, x) ==> m1.contains_key(x),
    decreases n, 1nat,
{
    if g.goal_index is Some {
        let k = g.goal_index->0;
        assert(m1.dom().contains(k) && m2.dom().contains(k));
        assert(m2[k] == m1[k]);
        lemma_hands_out_below_grow(m1[k], n, m1, m2, x);
    }
}

proof fn lemma_hands_out_below_grow(
    v: GoalTreeView,
    t: ProofTreeView,
    m1: Map<Seq<char>, GoalTreeView>,
    m2: Map<Seq<char>, GoalTreeView>,
    x: Seq<char>,
)
    requires
        lists(v, t, m1),
        m1.submap_of(m2),
    ensures
        hands_out_below(v, t, m2, x) == hands_out_below(v, t, m1, x),
        hands_out_below(v, t, m1, x) ==> m1.contains_key(x),
    decreases t, 0nat,
{
    if hands_out_below(v, t, m1, x) {
        let (i, j) = choose|i: int, j: int|
            #![trigger t.candidates[i].nested_goals[j]]
            0 <= i < t.candidates.len() && 0 <= j < t.candidates[i].nested_goals.len() && hands_out(
                v.candidates->Listed_0[i].nested_goals[j],
                t.candidates[i].nested_goals[j],
                m1,
                x,
            );
        assert(candidate_lists(v.candidates->Listed_0[i], t.candidates[i], m1));
        lemma_hands_out_grow(v.candidates->Listed_0[i].nested_goals[j], t.candidates[i].nested_goals[j], m1, m2, x);
    }
    if hands_out_below(v, t, m2, x) {
        let (i, j) = choose|i: int, j: int|
            #![trigger t.candidates[i].nested_goals[j]]
            0 <= i < t.candidates.len() && 0 <= j < t.candidates[i].nested_goals.len() && hands_out(
                v.candidates->Listed_0[i].nested_goals[j],
                t.candidates[i].nested_goals[j],
                m2,
                x,
            );
        assert(candidate_lists(v.candidates->Listed_0[i], t.candidates[i], m1));
        lemma_hands_out_grow(v.candidates->Listed_0[i].nested_goals[j], t.candidates[i].nested_goals[j], m1, m2, x);
    }
}

/// Whether one of the candidates `cs`, stand-ins for those of `t`, hands out
/// index `x` through a nested stand-in.
spec fn candidates_hand_out(
    cs: Seq<GoalCandidate>,
    t: ProofTreeView,
    store: Map<Seq<char>, GoalTreeView>,
    x: Seq<char>,
) -> bool {
    exists|a: int, b: int|
        #![trigger t.candidates[a].nested_goals[b]]
        0 <= a < cs.len() && 0 <= b < t.candidates[a].nested_goals.len() && hands_out(
            goal_candidate_view(cs[a]).nested_goals[b],
            t.candidates[a].nested_goals[b],
            store,
            x,
        )
}

/// Whether one of the stand-ins `gs`, for the goals `ns`, hands out index `x`.
spec fn goals_hand_out(
    gs: Seq<GoalTree>,
    ns: Seq<ProofTreeView>,
    store: Map<Seq<char>, GoalTreeView>,
    x: Seq<char>,
) -> bool {
    exists|b: int| #![trigger ns[b]] 0 <= b < gs.len() && hands_out(goal_tree_view(gs[b]), ns[b], store, x)
}

proof fn lemma_candidates_hand_out_grow(
    cs: Seq<GoalCandidate>,
    t: ProofTreeView,
    m1: Map<Seq<char>, GoalTreeView>,
    m2: Map<Seq<char>, GoalTreeView>,
    x: Seq<char>,
)
    requires
        cs.len() <= t.candidates.len(),
        forall|a: int| 0 <= a < cs.len() ==> candidate_lists(#[trigger] goal_candidate_view(cs[a]), t.candidates[a], m1),
        m1.submap_of(m2),
    ensures
        candidates_hand_out(cs, t, m2, x) == candidates_hand_out(cs, t, m1, x),
{
    if candidates_hand_out(cs, t, m1, x) {
        let (a, b) = choose|a: int, b: int|
            #![trigger t.candidates[a].nested_goals[b]]
            0 <= a < cs.len() && 0 <= b < t.candidates[a].nested_goals.len() && hands_out(
                goal_candidate_view(cs[a]).nested_goals[b],
                t.candidates[a].nested_goals[b],
                m1,
                x,
            );
        assert(candidate_lists(goal_candidate_view(cs[a]), t.candidates[a], m1));
        lemma_hands_out_grow(goal_candidate_view(cs[a]).nested_goals[b], t.candidates[a].nested_goals[b], m1, m2, x);
    }
    if candidates_hand_out(cs, t, m2, x) {
        let (a, b) = choose|a: int, b: int|
            #![trigger t.candidates[a].nested_goals[b]]
            0 <= a < cs.len() && 0 <= b < t.candidates[a].nested_goals.len() && hands_out(
                goal_candidate_view(cs[a]).nested_goals[b],
                t.candidates[a].nested_goals[b],
                m2,
                x,
            );
        assert(candidate_lists(goal_candidate_view(cs[a]), t.candidates[a], m1));
        lemma_hands_out_grow(goal_candidate_view(cs[a]).nested_goals[b], t.candidates[a].nested_goals[b], m1, m2, x);
    }
}

proof fn lemma_goals_hand_out_grow(
    gs: Seq<GoalTree>,
    ns: Seq<ProofTreeView>,
    m1: Map<Seq<char>, GoalTreeView>,
    m2: Map<Seq<char>, GoalTreeView>,
    x: Seq<char>,
)
    requires
        gs.len() <= ns.len(),
        forall|b: int| 0 <= b < gs.len() ==> summarizes(#[trigger] goal_tree_view(gs[b]), ns[b], m1),
        m1.submap_of(m2),
    ensures
        goals_hand_out(gs, ns, m2, x) == goals_hand_out(gs, ns, m1, x),
{
    if goals_hand_out(gs, ns, m1, x) {
        let b = choose|b: int| #![trigger ns[b]] 0 <= b < gs.len() && hands_out(goal_tree_view(gs[b]), ns[b], m1, x);
        lemma_hands_out_grow(goal_tree_view(gs[b]), ns[b], m1, m2, x);
    }
    if goals_hand_out(gs, ns, m2, x) {
        let b = choose|b: int| #![trigger ns[b]] 0 <= b < gs.len() && hands_out(goal_tree_view(gs[b]), ns[b], m2, x);
        assert(summarizes(goal_tree_view(gs[b]), ns[b], m1));
        lemma_hands_out_grow(goal_tree_view(gs[b]), ns[b], m1, m2, x);
    }
}

/// The indices that the roots `rs`, stored for the trees `ts`, hand out.
pub open spec fn handed_out_by_roots(
    rs: Seq<GoalTree>,
    ts: Seq<ProofTreeData>,
    store: Map<Seq<char>, GoalTreeView>,
) -> Set<Seq<char>> {
    Set::new(
        |x: Seq<char>|
            exists|a: int| #![trigger rs[a]] 0 <= a < rs.len() && handed_out(rs[a]@, ts[a]@, store).contains(x),
    )
}

proof fn lemma_handed_out_ignores_own_index(
    v1: GoalTreeView,
    v2: GoalTreeView,
    t: ProofTreeView,
    store: Map<Seq<char>, GoalTreeView>,
)
    requires
        v1.candidates == v2.candidates,
    ensures
        handed_out(v1, t, store) == handed_out(v2, t, store),
{
    assert(handed_out(v1, t, store) =~= handed_out(v2, t, store));
}

proof fn lemma_lists_grow(
    v: GoalTreeView,
    t: ProofTreeView,
    m1: Map<Seq<char>, GoalTreeView>,
    m2: Map<Seq<char>, GoalTreeView>,
)
    requires
        lists(v, t, m1),
        m1.submap_of(m2),
    ensures
        lists(v, t, m2),
    decreases t, 0nat,
{
    assert forall|i: int| 0 <= i < t.candidates.len() implies candidate_lists(
        #[trigger] v.candidates->Listed_0[i],
        t.candidates[i],
        m2,
    ) by {
        lemma_candidate_lists_grow(v.candidates->Listed_0[i], t.candidates[i], m1, m2);
    }
}

proof fn lemma_candidate_lists_grow(
    c: GoalCandidateView,
    tc: CandidateView,
    m1: Map<Seq<char>, GoalTreeView>,
    m2: Map<Seq<char>, GoalTreeView>,
)
    requires
        candidate_lists(c, tc, m1),
        m1.submap_of(m2),
    ensures
        candidate_lists(c, tc, m2),
    decreases tc, 0nat,
{
    assert forall|j: int| 0 <= j < tc.nested_goals.len() implies summarizes(
        #[trigger] c.nested_goals[j],
        tc.nested_goals[j],
        m2,
    ) by {
        lemma_summarizes_grow(c.nested_goals[j], tc.nested_goals[j], m1, m2);
    }
}

proof fn lemma_summarizes_grow(
    g: GoalTreeView,
    t: ProofTreeView,
    m1: Map<Seq<char>, GoalTreeView>,
    m2: Map<Seq<char>, GoalTreeView>,
)
    requires
        summarizes(g, t, m1),
        m1.submap_of(m2),
    ensures
        summarizes(g, t, m2),
    decreases t, 1nat,
{
    if g.goal_index is Some {
        let k = g.goal_index->0;
        assert(m1.dom().contains(k) && m2.dom().contains(k));
        assert(m2[k] == m1[k]);
        lemma_lists_grow(m1[k], t, m1, m2);
    }
}

/// Relies on uuid::Uuid::new_v4 and its Display impl: a random version-4
/// identifier in text form. Nothing is promised of the text.
#[verifier::external_body]
fn random_index() -> String {
    uuid::Uuid::new_v4().to_string()
}

pub open spec fn longest_index(entries: Seq<(String, GoalTree)>) -> nat
    decreases entries.len(),
{
    if entries.len() == 0 {
        0
    } else {
        let rest = longest_index(entries.drop_last());
        let n = entries.last().0@.len();
        if n > rest {
            n
        } else {
            rest
        }
    }
}

proof fn lemma_longest_index(entries: Seq<(String, GoalTree)>)
    ensures
        forall|a: int| 0 <= a < entries.len() ==> #[trigger] entries[a].0@.len() <= longest_index(entries),
    decreases entries.len(),
{
    if entries.len() > 0 {
        lemma_longest_index(entries.drop_last());
        assert forall|a: int| 0 <= a < entries.len() implies #[trigger] entries[a].0@.len() <= longest_index(entries) by {
            if a < entries.len() - 1 {
                assert(entries[a] == entries.drop_last()[a]);
            }
        }
    }
}


/// The root of a stored tree as handed back: `t` listed one level deep,
/// without an index of its own.
pub open spec fn presents(v: GoalTreeView, t: ProofTreeView, store: Map<Seq<char>, GoalTreeView>) -> bool {
    &&& lists(v, t, store)
    &&& v.goal_index is None
}

/// The `goal_index` argument of an expand request as the caller gave it: one
/// string, a list (each item a string or not), or anything else.
#[derive(Debug, Clone, PartialEq, Eq)]
pub enum GoalIndexArg {
    Single(String),
    List(Vec<Option<String>>),
    Other,
}

/// Why an expand request was refused.
#[derive(Debug, Clone, PartialEq, Eq)]
pub enum GoalLookupError {
    NotStringOrList,
    Empty,
    UnknownIndex(String),
}

/// The answer to an expand request: one view for one index, else a list.
#[derive(Debug, PartialEq, Eq)]
pub enum GoalExpansion {
    One(GoalTree),
    Many(Vec<GoalTree>),
}

pub open spec fn texts_of(v: Seq<String>) -> Seq<Seq<char>> {
    v.map_values(|s: String| s@)
}

/// The strings of `items`, in order.
pub open spec fn strings_of(items: Seq<Option<String>>) -> Seq<Seq<char>>
    decreases items.len(),
{
    if items.len() == 0 {
        Seq::empty()
    } else {
        let rest = strings_of(items.drop_last());
        match items.last() {
            Some(s) => rest.push(s@),
            None => rest,
        }
    }
}

/// The indices that an argument names, or `None` where it is neither a string
/// nor a list of strings.
pub open spec fn requested_indices(arg: GoalIndexArg) -> Option<Seq<Seq<char>>> {
    match arg {
        GoalIndexArg::Single(s) => Some(seq![s@]),
        GoalIndexArg::List(items) => if forall|i: int| 0 <= i < items@.len() ==> (#[trigger] items@[i]) is Some {
            Some(strings_of(items@))
        } else {
            None
        },
        GoalIndexArg::Other => None,
    }
}

pub open spec fn all_known(store: Map<Seq<char>, GoalTreeView>, ks: Seq<Seq<char>>) -> bool {
    forall|i: int| 0 <= i < ks.len() ==> store.contains_key(#[trigger] ks[i])
}

/// `ks[i]` is the first of `ks` that `store` does not know.
pub open spec fn first_unknown(store: Map<Seq<char>, GoalTreeView>, ks: Seq<Seq<char>>, i: int) -> bool {
    &&& 0 <= i < ks.len()
    &&& !store.contains_key(ks[i])
    &&& forall|j: int| 0 <= j < i ==> store.contains_key(#[trigger] ks[j])
}

/// Checks the `goal_index` argument and lists the indices that it names.
pub fn goal_indices(arg: &GoalIndexArg) -> (r: Result<Vec<String>, GoalLookupError>)
    ensures
        requested_indices(*arg) is None ==> r == Err::<Vec<String>, GoalLookupError>(
            GoalLookupError::NotStringOrList,
        ),
        requested_indices(*arg) matches Some(ks) ==> {
            &&& ks.len() == 0 ==> r == Err::<Vec<String>, GoalLookupError>(GoalLookupError::Empty)
            &&& ks.len() > 0 ==> (r matches Ok(v) && texts_of(v@) == ks)
        },
{
    let mut out: Vec<String> = Vec::new();
    match arg {
        GoalIndexArg::Single(s) => {
            out.push(s.clone());
            proof {
                assert(texts_of(out@) =~= seq![s@]);
            }
        },
        GoalIndexArg::List(items) => {
            let mut i: usize = 0;
            while i < items.len()
                invariant
                    i <= items@.len(),
                    texts_of(out@) == strings_of(items@.subrange(0, i as int)),
                    forall|a: int| 0 <= a < i ==> (#[trigger] items@[a]) is Some,
                    *arg == GoalIndexArg::List(*items),
                decreases items@.len() - i,
            {
                proof {
                    assert(items@.subrange(0, i + 1).drop_last() =~= items@.subrange(0, i as int));
                }
                match &items[i] {
                    Some(s) => {
                        out.push(s.clone());
                        proof {
                            assert(texts_of(out@) =~= strings_of(items@.subrange(0, i + 1)));
                        }
                    },
                    None => {
                        assert(!(items@[i as int] is Some));
                        assert(!(forall|a: int| 0 <= a < items@.len() ==> (#[trigger] items@[a]) is Some));
                        assert(requested_indices(*arg) is None);
                        return Err(GoalLookupError::NotStringOrList);
                    },
                }
                i = i + 1;
            }
            proof {
                assert(items@.subrange(0, items@.len() as int) =~= items@);
            }
        },
        GoalIndexArg::Other => {
            return Err(GoalLookupError::NotStringOrList);
        },
    }
    if out.len() == 0 {
        return Err(GoalLookupError::Empty);
    }
    Ok(out)
}

/// A view as it is kept under index `k`: expanded, with at least one
/// candidate, and carrying `k`.
pub open spec fn kept_view(k: Seq<char>, v: GoalTreeView) -> bool {
    &&& v.goal_index == Some(k)
    &&& v.candidates is Listed
    &&& v.candidates->Listed_0.len() > 0
}

/// Expanded views of goals, kept under the indices that were handed out for
/// them. Entries are only ever added, never changed or removed.
pub struct FailedObligationsState {
    failed_obligations: Vec<(String, GoalTree)>,
}

impl View for FailedObligationsState {
    type V = Map<Seq<char>, GoalTreeView>;

    closed spec fn view(&self) -> Map<Seq<char>, GoalTreeView> {
        Map::new(
            |k: Seq<char>| exists|a: int| self.holds_at(a, k),
            |k: Seq<char>| self.failed_obligations@[choose|a: int| self.holds_at(a, k)].1@,
        )
    }
}

impl Default for FailedObligationsState {
    fn default() -> (s: Self)
        ensures
            s@ == Map::<Seq<char>, GoalTreeView>::empty(),
    {
        Self::new()
    }
}

impl FailedObligationsState {
    spec fn holds_at(&self, a: int, k: Seq<char>) -> bool {
        0 <= a < self.failed_obligations@.len() && self.failed_obligations@[a].0@ == k
    }

    /// Indices are distinct, and each entry is the expanded view of a goal with
    /// candidates, carrying the index it is kept under.
    #[verifier::type_invariant]
    spec fn indices_distinct(&self) -> bool {
        &&& forall|a: int|
            0 <= a < self.failed_obligations@.len() ==> #[trigger] kept_view(
                self.failed_obligations@[a].0@,
                self.failed_obligations@[a].1@,
            )
        &&& forall|a: int, b: int|
            0 <= a < b < self.failed_obligations@.len() ==> #[trigger] self.failed_obligations@[a].0@
                != #[trigger] self.failed_obligations@[b].0@
    }

    proof fn lemma_entry(&self, a: int)
        requires
            self.indices_distinct(),
            0 <= a < self.failed_obligations@.len(),
        ensures
            self@.contains_key(self.failed_obligations@[a].0@),
            self@[self.failed_obligations@[a].0@] == self.failed_obligations@[a].1@,
    {
        let k = self.failed_obligations@[a].0@;
        assert(self.holds_at(a, k));
        let c = choose|c: int| self.holds_at(c, k);
        assert(c == a);
    }

    pub fn new() -> (s: Self)
        ensures
            s@ == Map::<Seq<char>, GoalTreeView>::empty(),
    {
        let s = FailedObligationsState { failed_obligations: Vec::new() };
        assert(s@ =~= Map::<Seq<char>, GoalTreeView>::empty());
        s
    }

    /// Stores `parsed_data` and returns its root with candidates listed one
    /// level deep; the root carries no index, as it is handed back directly.
    /// Entries already kept stay as they were.
    pub fn store_failed_obligations(&mut self, parsed_data: ProofTreeData) -> (r: GoalTree)
        ensures
            old(self)@.submap_of(final(self)@),
            presents(r@, parsed_data@, final(self)@),
            final(self)@.dom() == old(self)@.dom().union(handed_out(r@, parsed_data@, final(self)@)),
            old(self)@.dom().disjoint(handed_out(r@, parsed_data@, final(self)@)),
    {
        let mut goal_tree = self.add_proof_tree(&parsed_data);
        let ghost listed = goal_tree@;
        goal_tree.goal_index = None;
        proof {
            lemma_handed_out_ignores_own_index(listed, goal_tree@, parsed_data@, self@);
        }
        goal_tree
    }

    /// Stores each tree in turn and returns their roots, in order.
    pub fn store_all_failed_obligations(&mut self, trees: Vec<ProofTreeData>) -> (r: Vec<GoalTree>)
        ensures
            old(self)@.submap_of(final(self)@),
            r@.len() == trees@.len(),
            forall|i: int| 0 <= i < trees@.len() ==> presents(#[trigger] r@[i]@, trees@[i]@, final(self)@),
            final(self)@.dom() == old(self)@.dom().union(handed_out_by_roots(r@, trees@, final(self)@)),
            old(self)@.dom().disjoint(handed_out_by_roots(r@, trees@, final(self)@)),
    {
        let mut out: Vec<GoalTree> = Vec::new();
        let mut i: usize = 0;
        while i < trees.len()
            invariant
                i <= trees@.len(),
                out@.len() == i,
                old(self)@.submap_of(self@),
                forall|a: int| 0 <= a < i ==> presents(#[trigger] out@[a]@, trees@[a]@, self@),
                forall|x: Seq<char>|
                    (self@.contains_key(x) && !old(self)@.contains_key(x)) == #[trigger] handed_out_by_roots(
                        out@,
                        trees@,
                        self@,
                    ).contains(x),
            decreases trees@.len() - i,
        {
            let ghost before = self@;
            let mut root = self.add_proof_tree(&trees[i]);
            let ghost listed = root@;
            root.goal_index = None;
            let ghost prev = out@;
            proof {
                lemma_handed_out_ignores_own_index(listed, root@, trees@[i as int]@, self@);
                assert forall|a: int| 0 <= a < i implies presents(#[trigger] out@[a]@, trees@[a]@, self@) by {
                    lemma_lists_grow(out@[a]@, trees@[a]@, before, self@);
                }
            }
            out.push(root);
            proof {
                assert forall|x: Seq<char>|
                    (self@.contains_key(x) && !old(self)@.contains_key(x)) == #[trigger] handed_out_by_roots(
                        out@,
                        trees@,
                        self@,
                    ).contains(x) by {
                    if handed_out_by_roots(prev, trees@, before).contains(x) {
                        let a = choose|a: int|
                            #![trigger prev[a]]
                            0 <= a < prev.len() && handed_out(prev[a]@, trees@[a]@, before).contains(x);
                        lemma_hands_out_below_grow(prev[a]@, trees@[a]@, before, self@, x);
                        assert(out@[a] == prev[a]);
                    }
                    if handed_out_by_roots(out@, trees@, self@).contains(x) {
                        let a = choose|a: int|
                            #![trigger out@[a]]
                            0 <= a < out@.len() && handed_out(out@[a]@, trees@[a]@, self@).contains(x);
                        if a < i {
                            assert(out@[a] == prev[a]);
                            lemma_hands_out_below_grow(prev[a]@, trees@[a]@, before, self@, x);
                            assert(handed_out_by_roots(prev, trees@, before).contains(x));
                        }
                    }
                    if handed_out(root@, trees@[i as int]@, self@).contains(x) {
                        assert(out@[i as int] == root);
                    }
                }
            }
            i = i + 1;
        }
        proof {
            assert(self@.dom() =~= old(self)@.dom().union(handed_out_by_roots(out@, trees@, self@)));
        }
        out
    }

    /// The expanded view kept under `goal_index`, if that index was handed
    /// out by this store.
    pub fn get_failed_obligations(&self, goal_index: &str) -> (r: Option<GoalTree>)
        ensures
            r is Some <==> self@.contains_key(goal_index@),
            r matches Some(t) ==> t@ == self@[goal_index@] && kept_view(goal_index@, t@),
    {
        proof {
            use_type_invariant(self);
        }
        let key = goal_index.to_owned();
        match self.position(&key) {
            Some(a) => {
                proof {
                    self.lemma_entry(a as int);
                }
                Some(copy_goal_tree(&self.failed_obligations[a].1))
            },
            None => None,
        }
    }

    /// Looks up every index in order. Fails, with the first index that is not
    /// known, unless every one is; a partial list is never returned.
    pub fn expand_goals(&self, indices: &Vec<String>) -> (r: Result<Vec<GoalTree>, GoalLookupError>)
        ensures
            r is Ok <==> all_known(self@, texts_of(indices@)),
            r matches Ok(ts) ==> ts@.len() == indices@.len() && forall|i: int|
                0 <= i < indices@.len() ==> #[trigger] ts@[i]@ == self@[indices@[i]@],
            r matches Err(e) ==> exists|i: int|
                first_unknown(self@, texts_of(indices@), i) && e == GoalLookupError::UnknownIndex(
                    indices@[i],
                ),
    {
        let mut out: Vec<GoalTree> = Vec::new();
        let mut i: usize = 0;
        while i < indices.len()
            invariant
                i <= indices@.len(),
                out@.len() == i,
                forall|j: int| 0 <= j < i ==> self@.contains_key(#[trigger] indices@[j]@),
                forall|j: int| 0 <= j < i ==> #[trigger] out@[j]@ == self@[indices@[j]@],
            decreases indices@.len() - i,
        {
            match self.get_failed_obligations(indices[i].as_str()) {
                Some(t) => {
                    out.push(t);
                },
                None => {
                    proof {
                        assert(first_unknown(self@, texts_of(indices@), i as int));
                    }
                    return Err(GoalLookupError::UnknownIndex(indices[i].clone()));
                },
            }
            i = i + 1;
        }
        proof {
            assert forall|j: int| 0 <= j < texts_of(indices@).len() implies self@.contains_key(
                #[trigger] texts_of(indices@)[j],
            ) by {
                assert(self@.contains_key(indices@[j]@));
            }
        }
        Ok(out)
    }

    /// Answers an expand request: checks the `goal_index` argument, looks up
    /// every index it names, and returns the one view, or the list of views
    /// when it names more than one.
    pub fn expand_failed_obligations(&self, arg: &GoalIndexArg) -> (r: Result<GoalExpansion, GoalLookupError>)
        ensures
            requested_indices(*arg) is None ==> r == Err::<GoalExpansion, GoalLookupError>(
                GoalLookupError::NotStringOrList,
            ),
            requested_indices(*arg) matches Some(ks) ==> {
                &&& ks.len() == 0 ==> r == Err::<GoalExpansion, GoalLookupError>(GoalLookupError::Empty)
                &&& ks.len() > 0 ==> (r is Ok <==> all_known(self@, ks))
                &&& r matches Ok(GoalExpansion::One(t)) ==> ks.len() == 1 && t@ == self@[ks[0]]
                &&& r matches Ok(GoalExpansion::Many(ts)) ==> ks.len() > 1 && ts@.len() == ks.len()
                    && forall|i: int| 0 <= i < ks.len() ==> #[trigger] ts@[i]@ == self@[ks[i]]
                &&& ks.len() > 0 && !all_known(self@, ks) ==> exists|i: int|
                    first_unknown(self@, ks, i) && (r matches Err(GoalLookupError::UnknownIndex(k))
                        && k@ == ks[i])
            },
    {
        let indices = goal_indices(arg)?;
        let ghost ks = texts_of(indices@);
        let mut trees = self.expand_goals(&indices)?;
        if trees.len() == 1 {
            let t = trees.pop().unwrap();
            proof {
                assert(t@ == self@[indices@[0]@]);
            }
            Ok(GoalExpansion::One(t))
        } else {
            proof {
                assert forall|i: int| 0 <= i < ks.len() implies #[trigger] trees@[i]@ == self@[ks[i]] by {
                    assert(trees@[i]@ == self@[indices@[i]@]);
                }
            }
            Ok(GoalExpansion::Many(trees))
        }
    }

    fn position(&self, index: &String) -> (r: Option<usize>)
        ensures
            r matches Some(a) ==> a < self.failed_obligations@.len()
                && self.failed_obligations@[a as int].0@ == index@,
            r is None ==> !self@.contains_key(index@),
    {
        let mut a: usize = 0;
        while a < self.failed_obligations.len()
            invariant
                a <= self.failed_obligations@.len(),
                forall|b: int| 0 <= b < a ==> self.failed_obligations@[b].0@ != index@,
            decreases self.failed_obligations@.len() - a,
        {
            if self.failed_obligations[a].0 == *index {
                return Some(a);
            }
            a = a + 1;
        }
        assert(!(exists|b: int| self.holds_at(b, index@)));
        None
    }

    fn insert_entry(&mut self, index: String, tree: GoalTree)
        requires
            !old(self)@.contains_key(index@),
            kept_view(index@, tree@),
        ensures
            final(self)@ == old(self)@.insert(index@, tree@),
    {
        proof {
            use_type_invariant(&*self);
        }
        let ghost before = *self;
        let ghost k = index@;
        let ghost v = tree@;
        let mut entries: Vec<(String, GoalTree)> = Vec::new();
        std::mem::swap(&mut entries, &mut self.failed_obligations);
        proof {
            assert forall|a: int| 0 <= a < entries@.len() implies entries@[a].0@ != k by {
                assert(before.holds_at(a, entries@[a].0@));
            }
        }
        entries.push((index, tree));
        self.failed_obligations = entries;
        proof {
            let n = before.failed_obligations@.len() as int;
            assert(self.failed_obligations@[n].0@ == k);
            assert forall|q: Seq<char>| #[trigger] self@.contains_key(q) == before@.insert(k, v).contains_key(q) by {
                if q != k && before@.contains_key(q) {
                    let a = choose|a: int| before.holds_at(a, q);
                    assert(self.holds_at(a, q));
                }
                if self@.contains_key(q) && q != k {
                    let a = choose|a: int| self.holds_at(a, q);
                    assert(before.holds_at(a, q));
                }
                if q == k {
                    assert(self.holds_at(n, q));
                }
            }
            assert forall|q: Seq<char>| #[trigger] self@.contains_key(q) implies self@[q] == before@.insert(k, v)[q] by {
                if q == k {
                    self.lemma_entry(n);
                } else {
                    let a = choose|a: int| self.holds_at(a, q);
                    assert(before.holds_at(a, q));
                    self.lemma_entry(a);
                    before.lemma_entry(a);
                }
            }
            assert(self@ =~= before@.insert(k, v));
        }
    }

    /// A new index that no entry is kept under. Should a drawn identifier be
    /// taken already, it is lengthened until it is longer than every index.
    fn fresh_index(&self) -> (r: String)
        ensures
            !self@.contains_key(r@),
    {
        proof {
            use_type_invariant(self);
        }
        let mut index = random_index();
        let ghost bound = longest_index(self.failed_obligations@);
        proof {
            lemma_longest_index(self.failed_obligations@);
        }
        loop
            invariant
                bound == longest_index(self.failed_obligations@),
                forall|a: int|
                    0 <= a < self.failed_obligations@.len() ==> #[trigger] self.failed_obligations@[a].0@.len()
                        <= bound,
            decreases bound + 1 - index@.len(),
        {
            match self.position(&index) {
                None => {
                    return index;
                },
                Some(a) => {
                    assert(self.failed_obligations@[a as int].0@.len() <= bound);
                    proof {
                        reveal_strlit("-");
                    }
                    index.append("-");
                },
            }
        }
    }

    fn add_proof_tree(&mut self, proof_tree: &ProofTreeData) -> (r: GoalTree)
        ensures
            old(self)@.submap_of(final(self)@),
            expands(r@, proof_tree@, final(self)@),
            r@.goal_index matches Some(k) ==> !final(self)@.contains_key(k),
            final(self)@.dom() == old(self)@.dom().union(handed_out(r@, proof_tree@, final(self)@)),
            old(self)@.dom().disjoint(handed_out(r@, proof_tree@, final(self)@)),
        decreases proof_tree,
    {
        let ghost t = proof_tree@;
        let mut candidates: Vec<GoalCandidate> = Vec::new();
        let mut i: usize = 0;
        while i < proof_tree.candidates.len()
            invariant
                t == proof_tree@,
                i <= proof_tree.candidates@.len(),
                candidates@.len() == i,
                old(self)@.submap_of(self@),
                forall|a: int|
                    0 <= a < i ==> candidate_lists(
                        #[trigger] goal_candidate_view(candidates@[a]),
                        t.candidates[a],
                        self@,
                    ),
                forall|x: Seq<char>|
                    (self@.contains_key(x) && !old(self)@.contains_key(x)) == #[trigger] candidates_hand_out(
                        candidates@,
                        t,
                        self@,
                        x,
                    ),
            decreases proof_tree.candidates@.len() - i,
        {
            let candidate = &proof_tree.candidates[i];
            assert(t.candidates[i as int] == candidate_data_view(*candidate));
            let ghost ns = t.candidates[i as int].nested_goals;
            assert forall|b: int| 0 <= b < ns.len() implies #[trigger] ns[b] == proof_tree_view(
                candidate.nested_goals@[b],
            ) by {}
            proof {
                assert forall|x: Seq<char>|
                    (self@.contains_key(x) && !old(self)@.contains_key(x)) == (#[trigger] candidates_hand_out(
                        candidates@,
                        t,
                        self@,
                        x,
                    ) || goals_hand_out(Seq::<GoalTree>::empty(), ns, self@, x)) by {}
            }
            let mut goals: Vec<GoalTree> = Vec::new();
            let mut j: usize = 0;
            while j < candidate.nested_goals.len()
                invariant
                    t == proof_tree@,
                    i < proof_tree.candidates@.len(),
                    *candidate == proof_tree.candidates@[i as int],
                    candidates@.len() == i,
                    j <= candidate.nested_goals@.len(),
                    goals@.len() == j,
                    old(self)@.submap_of(self@),
                    forall|a: int|
                        0 <= a < i ==> candidate_lists(
                            #[trigger] goal_candidate_view(candidates@[a]),
                            t.candidates[a],
                            self@,
                        ),
                    forall|b: int|
                        0 <= b < j ==> summarizes(
                            #[trigger] goal_tree_view(goals@[b]),
                            proof_tree_view(candidate.nested_goals@[b]),
                            self@,
                        ),
                    ns == t.candidates[i as int].nested_goals,
                    ns.len() == candidate.nested_goals@.len(),
                    forall|b: int| 0 <= b < ns.len() ==> #[trigger] ns[b] == proof_tree_view(
                        candidate.nested_goals@[b],
                    ),
                    forall|x: Seq<char>|
                        (self@.contains_key(x) && !old(self)@.contains_key(x)) == (
                        #[trigger] candidates_hand_out(candidates@, t, self@, x) || goals_hand_out(
                            goals@,
                            ns,
                            self@,
                            x,
                        )),
                decreases candidate.nested_goals@.len() - j,
            {
                let nested_goal = &candidate.nested_goals[j];
                proof {
                    assert(decreases_to!(*proof_tree => proof_tree.candidates@[i as int]));
                    assert(decreases_to!(*candidate => candidate.nested_goals@[j as int]));
                }
                let ghost before = self@;
                let child = self.add_proof_tree(nested_goal);
                let ghost middle = self@;
                let goal_index = copy_text_opt(&child.goal_index);
                match &goal_index {
                    Some(k) => {
                        self.insert_entry(k.clone(), child);
                    },
                    None => {},
                }
                let ghost after = self@;
                let summary = GoalTree {
                    goal: nested_goal.goal.clone(),
                    result: nested_goal.result.clone(),
                    goal_index,
                    candidates: Candidates::Count(nested_goal.candidates.len()),
                };
                proof {
                    assert(middle.submap_of(after));
                    assert(before.submap_of(after));
                    assert forall|a: int| 0 <= a < i implies candidate_lists(
                        #[trigger] goal_candidate_view(candidates@[a]),
                        t.candidates[a],
                        after,
                    ) by {
                        lemma_candidate_lists_grow(goal_candidate_view(candidates@[a]), t.candidates[a], before, after);
                    }
                    assert forall|b: int| 0 <= b < j implies summarizes(
                        #[trigger] goal_tree_view(goals@[b]),
                        proof_tree_view(candidate.nested_goals@[b]),
                        after,
                    ) by {
                        lemma_summarizes_grow(goal_tree_view(goals@[b]), proof_tree_view(candidate.nested_goals@[b]), before, after);
                    }
                    lemma_lists_grow(child@, nested_goal@, middle, after);
                }
                let ghost prev = goals@;
                let ghost sv = goal_tree_view(summary);
                let ghost ng = nested_goal@;
                goals.push(summary);
                proof {
                    assert(ns[j as int] == ng);
                    assert(sv.goal_index == child@.goal_index);
                    assert forall|x: Seq<char>|
                        (after.contains_key(x) && !old(self)@.contains_key(x)) == (
                        #[trigger] candidates_hand_out(candidates@, t, after, x) || goals_hand_out(
                            goals@,
                            ns,
                            after,
                            x,
                        )) by {
                        lemma_candidates_hand_out_grow(candidates@, t, before, after, x);
                        lemma_goals_hand_out_grow(prev, ns, before, after, x);
                        lemma_hands_out_below_grow(child@, ng, middle, after, x);
                        assert(handed_out(child@, ng, middle).contains(x) == hands_out_below(child@, ng, middle, x));
                        if child@.goal_index is Some {
                            let k = child@.goal_index->0;
                            assert(after == middle.insert(k, child@));
                            assert(hands_out(sv, ng, after, x) == (x == k || hands_out_below(child@, ng, middle, x)));
                        } else {
                            assert(!hands_out_below(child@, ng, middle, x));
                            assert(!hands_out(sv, ng, after, x));
                            assert(after == middle);
                        }
                        assert((after.contains_key(x) && !old(self)@.contains_key(x)) == (
                            (before.contains_key(x) && !old(self)@.contains_key(x)) || hands_out(sv, ng, after, x)));
                        if goals_hand_out(prev, ns, after, x) {
                            let b = choose|b: int| #![trigger ns[b]] 0 <= b < prev.len() && hands_out(goal_tree_view(prev[b]), ns[b], after, x);
                            assert(goals@[b] == prev[b]);
                        }
                        if hands_out(sv, ng, after, x) {
                            assert(goals@[j as int] == summary);
                            assert(hands_out(goal_tree_view(goals@[j as int]), ns[j as int], after, x));
                        }
                        if goals_hand_out(goals@, ns, after, x) {
                            let b = choose|b: int| #![trigger ns[b]] 0 <= b < goals@.len() && hands_out(goal_tree_view(goals@[b]), ns[b], after, x);
                            if b < j {
                                assert(goals@[b] == prev[b]);
                            }
                        }
                    }
                }
                j = j + 1;
            }
            let ghost gs = goals@;
            let summarized = GoalCandidate {
                kind: candidate.kind.clone(),
                result: candidate.result.clone(),
                impl_header: copy_text_opt(&candidate.impl_header),
                nested_goals: goals,
            };
            proof {
                let cv = goal_candidate_view(summarized);
                let tc = t.candidates[i as int];
                assert forall|j: int| 0 <= j < tc.nested_goals.len() implies summarizes(
                    #[trigger] cv.nested_goals[j],
                    tc.nested_goals[j],
                    self@,
                ) by {
                    assert(cv.nested_goals[j] == goal_tree_view(goals@[j]));
                    assert(tc.nested_goals[j] == proof_tree_view(candidate.nested_goals@[j]));
                }
            }
            let ghost prev_cands = candidates@;
            candidates.push(summarized);
            proof {
                let cv = goal_candidate_view(summarized);
                assert(candidates@[i as int] == summarized);
                assert forall|x: Seq<char>|
                    (self@.contains_key(x) && !old(self)@.contains_key(x)) == #[trigger] candidates_hand_out(
                        candidates@,
                        t,
                        self@,
                        x,
                    ) by {
                    if candidates_hand_out(prev_cands, t, self@, x) {
                        let (a, b) = choose|a: int, b: int|
                            #![trigger t.candidates[a].nested_goals[b]]
                            0 <= a < prev_cands.len() && 0 <= b < t.candidates[a].nested_goals.len() && hands_out(
                                goal_candidate_view(prev_cands[a]).nested_goals[b],
                                t.candidates[a].nested_goals[b],
                                self@,
                                x,
                            );
                        assert(candidates@[a] == prev_cands[a]);
                    }
                    if goals_hand_out(gs, ns, self@, x) {
                        let b = choose|b: int| #![trigger ns[b]] 0 <= b < gs.len() && hands_out(goal_tree_view(gs[b]), ns[b], self@, x);
                        assert(cv.nested_goals[b] == goal_tree_view(gs[b]));
                        assert(t.candidates[i as int].nested_goals[b] == ns[b]);
                    }
                    if candidates_hand_out(candidates@, t, self@, x) {
                        let (a, b) = choose|a: int, b: int|
                            #![trigger t.candidates[a].nested_goals[b]]
                            0 <= a < candidates@.len() && 0 <= b < t.candidates[a].nested_goals.len() && hands_out(
                                goal_candidate_view(candidates@[a]).nested_goals[b],
                                t.candidates[a].nested_goals[b],
                                self@,
                                x,
                            );
                        if a < i {
                            assert(candidates@[a] == prev_cands[a]);
                        } else {
                            assert(cv.nested_goals[b] == goal_tree_view(gs[b]));
                            assert(t.candidates[i as int].nested_goals[b] == ns[b]);
                        }
                    }
                }
            }
            i = i + 1;
        }
        let goal_index = if candidates.len() > 0 {
            Some(self.fresh_index())
        } else {
            None
        };
        let r = GoalTree {
            goal: proof_tree.goal.clone(),
            result: proof_tree.result.clone(),
            goal_index,
            candidates: Candidates::Candidates(candidates),
        };
        proof {
            let v = goal_tree_view(r);
            assert forall|a: int| 0 <= a < t.candidates.len() implies candidate_lists(
                #[trigger] v.candidates->Listed_0[a],
                t.candidates[a],
                self@,
            ) by {
                assert(v.candidates->Listed_0[a] == goal_candidate_view(candidates@[a]));
            }
            assert forall|x: Seq<char>|
                handed_out(v, t, self@).contains(x) == candidates_hand_out(candidates@, t, self@, x) by {
                if hands_out_below(v, t, self@, x) {
                    let (a, b) = choose|a: int, b: int|
                        #![trigger t.candidates[a].nested_goals[b]]
                        0 <= a < t.candidates.len() && 0 <= b < t.candidates[a].nested_goals.len() && hands_out(
                            v.candidates->Listed_0[a].nested_goals[b],
                            t.candidates[a].nested_goals[b],
                            self@,
                            x,
                        );
                    assert(v.candidates->Listed_0[a] == goal_candidate_view(candidates@[a]));
                }
                if candidates_hand_out(candidates@, t, self@, x) {
                    let (a, b) = choose|a: int, b: int|
                        #![trigger t.candidates[a].nested_goals[b]]
                        0 <= a < candidates@.len() && 0 <= b < t.candidates[a].nested_goals.len() && hands_out(
                            goal_candidate_view(candidates@[a]).nested_goals[b],
                            t.candidates[a].nested_goals[b],
                            self@,
                            x,
                        );
                    assert(v.candidates->Listed_0[a] == goal_candidate_view(candidates@[a]));
                }
            }
            assert(self@.dom() =~= old(self)@.dom().union(handed_out(v, t, self@)));
            assert(old(self)@.dom().disjoint(handed_out(v, t, self@)));
        }
        r
    }
}

/// The text that a refused expand request is answered with.
pub open spec fn lookup_error_text(e: GoalLookupError) -> Seq<char> {
    match e {
        GoalLookupError::NotStringOrList => "goal_index must be a string or array of strings"@,
        GoalLookupError::Empty => "At least one goal_index is required"@,
        GoalLookupError::UnknownIndex(k) => "Invalid goal_index '"@ + k@ + "' or expired data"@,
    }
}

impl GoalLookupError {
    pub fn message(&self) -> (r: String)
        ensures
            r@ == lookup_error_text(*self),
    {
        match self {
            GoalLookupError::NotStringOrList => String::from_str(
                "goal_index must be a string or array of strings",
            ),
            GoalLookupError::Empty => String::from_str("At least one goal_index is required"),
            GoalLookupError::UnknownIndex(k) => {
                let mut r = String::from_str("Invalid goal_index '");
                r.append(k.as_str());
                r.append("' or expired data");
                r
            },
        }
    }
}

/// A goal without candidates never carries an index: the root that storing
/// hands back carries none, and a nested goal carries one exactly when it has
/// candidates.
pub proof fn lemma_leaf_goals_carry_no_index(
    v: GoalTreeView,
    t: ProofTreeView,
    store: Map<Seq<char>, GoalTreeView>,
    i: int,
    j: int,
)
    requires
        presents(v, t, store),
        0 <= i < t.candidates.len(),
        0 <= j < t.candidates[i].nested_goals.len(),
    ensures
        v.goal_index is None,
        v.candidates->Listed_0[i].nested_goals[j].goal_index is None
            <==> t.candidates[i].nested_goals[j].candidates.len() == 0,
{
    assert(candidate_lists(v.candidates->Listed_0[i], t.candidates[i], store));
    assert(summarizes(
        v.candidates->Listed_0[i].nested_goals[j],
        t.candidates[i].nested_goals[j],
        store,
    ));
}

/// The index that a view shows for a nested goal leads to that goal: the view
/// kept under it has the goal's text and result, and lists its candidates.
/// As that kept view lists its goal in turn, the law applies again to it, and
/// so at every depth.
pub proof fn lemma_index_leads_to_nested_goal(
    v: GoalTreeView,
    t: ProofTreeView,
    store: Map<Seq<char>, GoalTreeView>,
    i: int,
    j: int,
)
    requires
        lists(v, t, store),
        0 <= i < t.candidates.len(),
        0 <= j < t.candidates[i].nested_goals.len(),
        v.candidates->Listed_0[i].nested_goals[j].goal_index is Some,
    ensures
        ({
            let k = v.candidates->Listed_0[i].nested_goals[j].goal_index->0;
            let n = t.candidates[i].nested_goals[j];
            &&& store.contains_key(k)
            &&& store[k].goal == n.goal
            &&& store[k].result == n.result
            &&& store[k].goal_index == Some(k)
            &&& lists(store[k], n, store)
        }),
{
    assert(candidate_lists(v.candidates->Listed_0[i], t.candidates[i], store));
    assert(summarizes(
        v.candidates->Listed_0[i].nested_goals[j],
        t.candidates[i].nested_goals[j],
        store,
    ));
}

} // verus!
