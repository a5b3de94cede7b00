//! Read-side helpers over a retrieved result set.
//!
//! The presentation layer shows contests grouped by ballot title on the
//! overview, looks a single contest up by its natural id for the detail
//! page, and lists that contest's candidates by descending vote share.

use crate::model::{Candidate, Contest, ContestView};
use crate::normalize::{contests_have_id, index_of_contest, lemma_index_of_contest};
use vstd::multiset::Multiset;
use vstd::prelude::*;
use vstd::seq_lib::group_to_multiset_ensures;

verus! {

/// All contests sharing one ballot title, in first-seen order.
pub struct BallotGroup {
    pub title: String,
    pub contests: Vec<Contest>,
}

/// Deep view of `BallotGroup`.
#[verifier::ext_equal]
pub struct BallotGroupView {
    pub title: Seq<char>,
    pub contests: Seq<ContestView>,
}

impl DeepView for BallotGroup {
    type V = BallotGroupView;

    open spec fn deep_view(&self) -> BallotGroupView {
        BallotGroupView { title: self.title@, contests: self.contests.deep_view() }
    }
}

/// First group carrying this title, or `gs.len()` if none does.
pub open spec fn index_of_title(gs: Seq<BallotGroupView>, title: Seq<char>) -> int
    decreases gs.len(),
{
    if gs.len() == 0 {
        0
    } else if gs.first().title == title {
        0
    } else {
        1 + index_of_title(gs.drop_first(), title)
    }
}

/// Filing one contest under its ballot title: append it to the group
/// already carrying the title, or open a new group at the end.
pub open spec fn spec_group_insert(gs: Seq<BallotGroupView>, c: ContestView) -> Seq<
    BallotGroupView,
> {
    let i = index_of_title(gs, c.ballot_title);
    if i < gs.len() {
        gs.update(i, BallotGroupView { contests: gs[i].contests.push(c), ..gs[i] })
    } else {
        gs.push(BallotGroupView { title: c.ballot_title, contests: seq![c] })
    }
}

/// The whole grouping, as a left fold over the contests.
pub open spec fn spec_group_by_title(cs: Seq<ContestView>) -> Seq<BallotGroupView>
    decreases cs.len(),
{
    if cs.len() == 0 {
        Seq::empty()
    } else {
        spec_group_insert(spec_group_by_title(cs.drop_last()), cs.last())
    }
}

proof fn lemma_index_of_title_at(gs: Seq<BallotGroupView>, title: Seq<char>, i: int)
    requires
        0 <= i <= gs.len(),
        forall|k: int| 0 <= k < i ==> (#[trigger] gs[k]).title != title,
        i == gs.len() || gs[i].title == title,
    ensures
        index_of_title(gs, title) == i,
    decreases i,
{
    if i > 0 {
        assert forall|k: int| 0 <= k < i - 1 implies (#[trigger] gs.drop_first()[k]).title
            != title by {
            assert(gs.drop_first()[k] == gs[k + 1]);
        }
        lemma_index_of_title_at(gs.drop_first(), title, i - 1);
    }
}

/// True when the group at `pos` files a different ballot title.
fn title_at_differs(groups: &Vec<BallotGroup>, pos: usize, title: &String) -> (b: bool)
    requires
        pos < groups@.len(),
    ensures
        b == (groups.deep_view()[pos as int].title != title@),
{
    !(groups[pos].title == *title)
}

/// Group contests by ballot title, titles and members in first-seen order.
#[verifier::loop_isolation(false)]
#[verifier::rlimit(60)]
pub fn contests_by_ballot_title(contests: &Vec<Contest>) -> (r: Vec<BallotGroup>)
    ensures
        r.deep_view() == spec_group_by_title(contests.deep_view()),
{
    let ghost dv = contests.deep_view();
    let mut groups: Vec<BallotGroup> = Vec::new();
    let mut i: usize = 0;
    while i < contests.len()
        invariant
            0 <= i <= contests.len(),
            groups.deep_view() == spec_group_by_title(dv.take(i as int)),
        decreases contests.len() - i,
    {
        let c = contests[i].duplicate();
        proof {
            assert(c.deep_view() == dv[i as int]);
        }
        let ghost prev_dv = groups.deep_view();
        let mut pos: usize = 0;
        while pos < groups.len() && title_at_differs(&groups, pos, &c.ballot_title)
            invariant
                0 <= pos <= groups@.len(),
                forall|k: int| 0 <= k < pos ==> (#[trigger] prev_dv[k]).title != dv[
                    i as int
                ].ballot_title,
            decreases groups@.len() - pos,
        {
            pos = pos + 1;
        }
        proof {
            lemma_index_of_title_at(prev_dv, dv[i as int].ballot_title, pos as int);
        }
        if pos < groups.len() {
            let mut g = groups.remove(pos);
            let ghost g_dv = g.deep_view();
            g.contests.push(c);
            proof {
                assert(g.deep_view().contests =~= g_dv.contests.push(dv[i as int]));
                assert(g.deep_view() == BallotGroupView {
                    contests: g_dv.contests.push(dv[i as int]),
                    ..g_dv
                });
            }
            groups.insert(pos, g);
            proof {
                assert(groups.deep_view() =~= spec_group_insert(prev_dv, dv[i as int]));
            }
        } else {
            let title = c.ballot_title.clone();
            let mut members: Vec<Contest> = Vec::new();
            members.push(c);
            let fresh = BallotGroup { title, contests: members };
            proof {
                assert(fresh.deep_view().contests =~= seq![dv[i as int]]);
            }
            groups.push(fresh);
            proof {
                assert(groups.deep_view() =~= spec_group_insert(prev_dv, dv[i as int]));
            }
        }
        proof {
            assert(dv.take(i + 1).drop_last() =~= dv.take(i as int));
            assert(dv.take(i + 1).last() == dv[i as int]);
        }
        i = i + 1;
    }
    proof {
        assert(dv.take(contests@.len() as int) =~= dv);
    }
    groups
}

/// Find the contest carrying a natural id: the first match, or nothing.
#[verifier::loop_isolation(false)]
pub fn find_contest<'a>(contests: &'a Vec<Contest>, natural_id: u32) -> (r: Option<
    &'a Contest,
>)
    ensures
        r is Some <==> contests_have_id(contests.deep_view(), natural_id),
        r matches Option::Some(c) ==> {
            let i = index_of_contest(contests.deep_view(), natural_id);
            &&& 0 <= i < contests@.len()
            &&& *c == contests@[i]
        },
{
    let ghost dv = contests.deep_view();
    let mut i: usize = 0;
    while i < contests.len() && contests[i].natural_id != natural_id
        invariant
            0 <= i <= contests@.len(),
            forall|k: int| 0 <= k < i ==> (#[trigger] dv[k]).natural_id != natural_id,
        decreases contests@.len() - i,
    {
        proof {
            assert(dv[i as int].natural_id == contests@[i as int].natural_id);
        }
        i = i + 1;
    }
    if i < contests.len() {
        proof {
            assert(dv[i as int].natural_id == natural_id);
            lemma_index_of_contest(dv, natural_id);
        }
        Option::Some(&contests[i])
    } else {
        proof {
            assert(!contests_have_id(dv, natural_id));
        }
        Option::None
    }
}

/// Candidates reordered by descending vote share; ties keep no particular
/// order. The returned list is a permutation of the input.
#[verifier::loop_isolation(false)]
#[verifier::rlimit(60)]
pub fn sort_candidates_desc(candidates: Vec<Candidate>) -> (r: Vec<Candidate>)
    ensures
        r@.to_multiset() == candidates@.to_multiset(),
        forall|p: int, q: int| 0 <= p < q < r@.len() ==> (#[trigger] r@[p]).percentage
            >= (#[trigger] r@[q]).percentage,
{
    broadcast use group_to_multiset_ensures;

    let mut rest = candidates;
    let mut out: Vec<Candidate> = Vec::new();
    while rest.len() > 0
        invariant
            out@.to_multiset().add(rest@.to_multiset()) == candidates@.to_multiset(),
            forall|p: int, q: int| 0 <= p < q < out@.len() ==> (
            #[trigger] out@[p]).percentage >= (#[trigger] out@[q]).percentage,
            forall|p: int, q: int| 0 <= p < out@.len() && 0 <= q < rest@.len() ==> (
            #[trigger] out@[p]).percentage >= (#[trigger] rest@[q]).percentage,
        decreases rest.len(),
    {
        let mut best: usize = 0;
        let mut j: usize = 1;
        while j < rest.len()
            invariant
                0 <= best < j <= rest@.len(),
                forall|q: int| 0 <= q < j ==> (#[trigger] rest@[best as int]).percentage
                    >= rest@[q].percentage,
            decreases rest@.len() - j,
        {
            if rest[j].percentage > rest[best].percentage {
                best = j;
            }
            j = j + 1;
        }
        let ghost old_rest = rest@;
        let ghost old_out = out@;
        let c = rest.remove(best);
        out.push(c);
        proof {
            old_rest.remove_ensures(best as int);
            assert(old_rest.to_multiset().contains(c));
            assert(out@.to_multiset() =~= old_out.to_multiset().insert(c));
            assert(rest@.to_multiset() =~= old_rest.to_multiset().remove(c));
            assert(out@.to_multiset().add(rest@.to_multiset()) =~= old_out.to_multiset().add(
                old_rest.to_multiset(),
            ));
            assert forall|p: int, q: int|
                0 <= p < out@.len() && 0 <= q < rest@.len() implies (
            #[trigger] out@[p]).percentage >= (#[trigger] rest@[q]).percentage by {
                if q < best {
                    assert(rest@[q] == old_rest[q]);
                } else {
                    assert(rest@[q] == old_rest[q + 1]);
                }
                if p < old_out.len() {
                    assert(out@[p] == old_out[p]);
                } else {
                    assert(out@[p] == c);
                }
            }
        }
    }
    proof {
        assert(rest@.to_multiset() =~= Multiset::<Candidate>::empty());
        assert(out@.to_multiset().add(rest@.to_multiset()) =~= out@.to_multiset());
    }
    out
}

} // verus!
