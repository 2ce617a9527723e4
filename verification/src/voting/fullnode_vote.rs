use vstd::prelude::*;

use crate::kv::{contains_text, texts};

verus! {

/// The error for a node that votes a second time.
pub open spec fn already_voted_message() -> Seq<char> {
    "Fullnode: Dieser Node hat bereits abgestimmt."@
}

/// A vote of the full nodes on a proposal: the tally and who has voted.
/// (Whether the proposal passes compares the share of yes votes with a
/// fractional threshold, which the caller keeps.)
#[derive(Debug)]
pub struct FullnodeVote {
    pub proposal: String,
    pub total_voters: usize,
    pub votes_yes: usize,
    pub votes_no: usize,
    pub voters: Vec<String>,
}

impl FullnodeVote {
    /// Each node voted once, and every vote is counted once.
    pub open spec fn wf(&self) -> bool {
        &&& texts(self.voters@).no_duplicates()
        &&& self.votes_yes + self.votes_no == self.voters@.len()
    }

    /// No vote cast yet.
    pub fn new(proposal: String, total_voters: usize) -> (res: Self)
        ensures
            res.wf(),
            res.proposal == proposal,
            res.total_voters == total_voters,
            res.votes_yes == 0,
            res.votes_no == 0,
            res.voters@.len() == 0,
    {
        let res = FullnodeVote { proposal, total_voters, votes_yes: 0, votes_no: 0, voters: Vec::new() };
        assert(texts(res.voters@) =~= Seq::<Seq<char>>::empty());
        res
    }

    /// `voter` casts a yes or no vote; a node that already voted is refused.
    pub fn cast_vote(&mut self, voter: String, vote_yes: bool) -> (res: Result<(), String>)
        requires
            old(self).wf(),
        ensures
            final(self).wf(),
            final(self).proposal == old(self).proposal,
            final(self).total_voters == old(self).total_voters,
            texts(old(self).voters@).contains(voter@) ==> {
                &&& res matches Err(m) && m@ == already_voted_message()
                &&& final(self).votes_yes == old(self).votes_yes
                &&& final(self).votes_no == old(self).votes_no
                &&& final(self).voters@ == old(self).voters@
            },
            !texts(old(self).voters@).contains(voter@) ==> {
                &&& res is Ok
                &&& texts(final(self).voters@) == texts(old(self).voters@).push(voter@)
                &&& final(self).votes_yes == old(self).votes_yes + if vote_yes { 1int } else { 0int }
                &&& final(self).votes_no == old(self).votes_no + if vote_yes { 0int } else { 1int }
            },
    {
        if contains_text(&self.voters, &voter) {
            return Err(String::from_str("Fullnode: Dieser Node hat bereits abgestimmt."));
        }
        let ghost old_t = texts(self.voters@);
        let ghost v = voter@;
        self.voters.push(voter);
        let count = self.voters.len();
        assert(count == old_t.len() + 1);
        assert(texts(self.voters@) =~= old_t.push(v));
        if vote_yes {
            self.votes_yes = self.votes_yes + 1;
        } else {
            self.votes_no = self.votes_no + 1;
        }
        proof {
            assert forall|a: int, b: int| 0 <= a < b < texts(self.voters@).len() implies texts(self.voters@)[a] != texts(self.voters@)[b] by {
                if b == old_t.len() {
                    assert(old_t.contains(old_t[a]));
                }
            }
        }
        Ok(())
    }
}

} // verus!
