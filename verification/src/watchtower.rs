use vstd::prelude::*;

use crate::error::{is_error_with, DexError};
use crate::gossip::GossipMessage;
use crate::kv::{
    bytes_eq, contains_text, find_string_key, insert_spec, insert_text, keys_of, lookup_spec,
    put_string_keyed, remove_spec, remove_string_keyed, string_keyed, texts,
};

verus! {

/// What the watchtower knows of a payment channel: the latest commitment
/// transaction and the hash of its revocation secret.
#[derive(Clone, Debug)]
pub struct WatchtowerState {
    pub latest_commitment_tx: Vec<u8>,
    pub revocation_secret_hash: [u8; 32],
}

/// The audit line written when fraud is detected on `channel_id`.
pub open spec fn fraud_audit_line(channel_id: Seq<char>) -> Seq<char> {
    "⚠️ Audit: Betrug erkannt im Channel "@ + channel_id
}

/// The vote lists of a pair list, seen as texts.
pub open spec fn vote_view(v: Seq<(String, Vec<String>)>) -> Seq<(Seq<char>, Seq<Seq<char>>)> {
    v.map_values(|p: (String, Vec<String>)| (p.0@, texts(p.1@)))
}

/// The votes for `channel` after `voter` votes: the voter joins the set
/// (started empty if the channel had none).
pub open spec fn votes_after(votes: Seq<(Seq<char>, Seq<Seq<char>>)>, channel: Seq<char>, voter: Seq<char>) -> Seq<Seq<char>> {
    let before = match lookup_spec(votes, channel) {
        Some(s) => s,
        None => Seq::empty(),
    };
    if before.contains(voter) {
        before
    } else {
        before.push(voter)
    }
}

/// Watches payment channels for fraud: a published commitment that differs
/// from the latest known one gets the channel banned and frozen, an audit
/// entry, and a vote; enough votes from distinct watchtowers punish the
/// cheater.
#[derive(Clone, Debug)]
pub struct Watchtower {
    channel_states: Vec<(String, WatchtowerState)>,
    votes: Vec<(String, Vec<String>)>,
    threshold: usize,
    banned_accounts: Vec<String>,
    frozen_balances: Vec<String>,
    audit_log: Vec<String>,
    node_id: String,
}

impl Watchtower {
    /// The registered channels and their states.
    pub closed spec fn channels(&self) -> Seq<(Seq<char>, WatchtowerState)> {
        string_keyed(self.channel_states@)
    }

    /// The votes collected per channel.
    pub closed spec fn votes(&self) -> Seq<(Seq<char>, Seq<Seq<char>>)> {
        vote_view(self.votes@)
    }

    /// How many votes punish a cheater.
    pub closed spec fn threshold(&self) -> usize {
        self.threshold
    }

    /// The banned channels/accounts.
    pub closed spec fn banned(&self) -> Seq<Seq<char>> {
        texts(self.banned_accounts@)
    }

    /// The frozen balances.
    pub closed spec fn frozen(&self) -> Seq<Seq<char>> {
        texts(self.frozen_balances@)
    }

    /// The audit log, oldest first.
    pub closed spec fn audit(&self) -> Seq<Seq<char>> {
        texts(self.audit_log@)
    }

    /// This watchtower's own identifier.
    pub closed spec fn node_id(&self) -> Seq<char> {
        self.node_id@
    }

    /// No channel, vote set, ban or freeze is held twice.
    pub closed spec fn wf(&self) -> bool {
        &&& keys_of(self.channels()).no_duplicates()
        &&& keys_of(self.votes()).no_duplicates()
        &&& self.banned().no_duplicates()
        &&& self.frozen().no_duplicates()
        &&& forall|i: int| 0 <= i < self.votes@.len() ==> (#[trigger] texts(self.votes@[i].1@)).no_duplicates()
    }

    /// An empty watchtower for node `node_id`, punishing at 3 votes.
    pub fn new(node_id: &str) -> (res: Self)
        ensures
            res.wf(),
            res.channels().len() == 0,
            res.votes().len() == 0,
            res.threshold() == 3,
            res.banned().len() == 0,
            res.frozen().len() == 0,
            res.audit().len() == 0,
            res.node_id() == node_id@,
    {
        let res = Watchtower {
            channel_states: Vec::new(),
            votes: Vec::new(),
            threshold: 3,
            banned_accounts: Vec::new(),
            frozen_balances: Vec::new(),
            audit_log: Vec::new(),
            node_id: node_id.to_owned(),
        };
        assert(keys_of(res.channels()) =~= Seq::<Seq<char>>::empty());
        assert(keys_of(res.votes()) =~= Seq::<Seq<char>>::empty());
        assert(res.banned() =~= Seq::<Seq<char>>::empty());
        assert(res.frozen() =~= Seq::<Seq<char>>::empty());
        res
    }

    /// Registers (or replaces) the state of a channel; always succeeds.
    pub fn register_channel(&mut self, channel_id: &str, commit_tx: Vec<u8>, rev_hash: [u8; 32]) -> (res: Result<(), DexError>)
        requires
            old(self).wf(),
        ensures
            final(self).wf(),
            res is Ok,
            final(self).channels() == insert_spec(
                old(self).channels(),
                channel_id@,
                WatchtowerState { latest_commitment_tx: commit_tx, revocation_secret_hash: rev_hash },
            ),
            final(self).votes() == old(self).votes(),
            final(self).threshold() == old(self).threshold(),
            final(self).banned() == old(self).banned(),
            final(self).frozen() == old(self).frozen(),
            final(self).audit() == old(self).audit(),
            final(self).node_id() == old(self).node_id(),
    {
        let st = WatchtowerState { latest_commitment_tx: commit_tx, revocation_secret_hash: rev_hash };
        proof {
            crate::kv::lemma_insert_distinct(self.channels(), channel_id@, st);
        }
        put_string_keyed(&mut self.channel_states, channel_id.to_owned(), st);
        Ok(())
    }

    /// Appends the fraud audit line for `channel_id`.
    fn log_audit_entry(&mut self, channel_id: &str)
        ensures
            final(self).audit() == old(self).audit().push(fraud_audit_line(channel_id@)),
            final(self).channel_states == old(self).channel_states,
            final(self).votes == old(self).votes,
            final(self).threshold == old(self).threshold,
            final(self).banned_accounts == old(self).banned_accounts,
            final(self).frozen_balances == old(self).frozen_balances,
            final(self).node_id == old(self).node_id,
    {
        let mut entry = "⚠️ Audit: Betrug erkannt im Channel ".to_owned();
        entry.append(channel_id);
        let ghost old_log = self.audit_log@;
        let ghost ev = entry@;
        self.audit_log.push(entry);
        assert(texts(self.audit_log@) =~= texts(old_log).push(ev));
    }

    /// Records `voter`'s vote against `channel`; returns how many distinct
    /// voters the channel now has.
    fn add_vote(&mut self, channel: &String, voter: String) -> (count: usize)
        requires
            old(self).wf(),
        ensures
            final(self).wf(),
            final(self).votes() == insert_spec(old(self).votes(), channel@, votes_after(old(self).votes(), channel@, voter@)),
            count == votes_after(old(self).votes(), channel@, voter@).len(),
            final(self).channel_states == old(self).channel_states,
            final(self).threshold == old(self).threshold,
            final(self).banned_accounts == old(self).banned_accounts,
            final(self).frozen_balances == old(self).frozen_balances,
            final(self).audit_log == old(self).audit_log,
            final(self).node_id == old(self).node_id,
    {
        let ghost old_votes = self.votes();
        proof {
            keys_of(old_votes).index_of_first_ensures(channel@);
            assert(keys_of(string_keyed(self.votes@)) =~= keys_of(old_votes));
        }
        match find_string_key(&self.votes, channel) {
            Some(i) => {
                let (name, mut set) = self.votes.remove(i);
                let ghost old_set = texts(set@);
                assert(old_set == old_votes[i as int].1);
                insert_text(&mut set, voter);
                let count = set.len();
                let ghost new_set = texts(set@);
                self.votes.insert(i, (name, set));
                proof {
                    assert(self.votes() =~= old_votes.update(i as int, (channel@, new_set)));
                    assert(lookup_spec(old_votes, channel@) == Some(old_set));
                    crate::kv::lemma_insert_distinct(old_votes, channel@, new_set);
                    assert forall|j: int| 0 <= j < self.votes@.len() implies (#[trigger] texts(self.votes@[j].1@)).no_duplicates() by {
                        if j != i {
                            assert(self.votes@[j] == old(self).votes@[j]);
                        } else {
                            assert(texts(self.votes@[j].1@) == new_set);
                            assert(old_set.no_duplicates()) by {
                                assert(texts(old(self).votes@[i as int].1@) == old_set);
                            }
                        }
                    }
                }
                count
            },
            None => {
                let mut set: Vec<String> = Vec::new();
                let ghost vv = voter@;
                set.push(voter);
                let ghost new_set = texts(set@);
                assert(new_set =~= seq![vv]);
                assert(Seq::<Seq<char>>::empty().push(vv) =~= seq![vv]);
                let name = channel.clone();
                self.votes.push((name, set));
                proof {
                    assert(self.votes() =~= old_votes.push((channel@, new_set)));
                    crate::kv::lemma_insert_distinct(old_votes, channel@, new_set);
                    assert forall|j: int| 0 <= j < self.votes@.len() implies (#[trigger] texts(self.votes@[j].1@)).no_duplicates() by {
                        if j < old(self).votes@.len() {
                            assert(self.votes@[j] == old(self).votes@[j]);
                        }
                    }
                }
                1
            },
        }
    }

    /// What a fraud check does. An unknown channel fails with "Unknown
    /// channel <id>". A published commitment equal to the latest known one is
    /// no fraud (`Ok(false)`, nothing changes). A different one is fraud
    /// (`Ok(true)`): the channel is banned and frozen, the audit line is
    /// written, the sender's vote is counted, and once the channel has
    /// `threshold` votes the cheater is punished and the votes are cleared.
    pub open spec fn check_post(pre: Self, post: Self, channel_id: Seq<char>, published: Seq<u8>, sender: Seq<char>, res: Result<bool, DexError>) -> bool {
        match lookup_spec(pre.channels(), channel_id) {
            None => is_error_with(res, "Unknown channel "@ + channel_id) && post == pre,
            Some(st) => if published == st.latest_commitment_tx@ {
                res == Ok::<bool, DexError>(false) && post == pre
            } else {
                let after = votes_after(pre.votes(), channel_id, sender);
                let voted = insert_spec(pre.votes(), channel_id, after);
                &&& res == Ok::<bool, DexError>(true)
                &&& post.channels() == pre.channels()
                &&& post.banned() == if pre.banned().contains(channel_id) { pre.banned() } else { pre.banned().push(channel_id) }
                &&& post.frozen() == if pre.frozen().contains(channel_id) { pre.frozen() } else { pre.frozen().push(channel_id) }
                &&& post.audit() == pre.audit().push(fraud_audit_line(channel_id))
                &&& post.votes() == if after.len() >= pre.threshold() { remove_spec(voted, channel_id) } else { voted }
                &&& post.threshold() == pre.threshold()
                &&& post.node_id() == pre.node_id()
            },
        }
    }

    /// Checks a commitment published on `channel_id`, reported by the
    /// watchtower `sender_watchtower_id`.
    pub fn check_for_betrug(&mut self, channel_id: &str, published_commit: &[u8], sender_watchtower_id: &str) -> (res: Result<bool, DexError>)
        requires
            old(self).wf(),
        ensures
            final(self).wf(),
            Self::check_post(*old(self), *final(self), channel_id@, published_commit@, sender_watchtower_id@, res),
    {
        let ch = channel_id.to_owned();
        let ghost pre = *self;
        proof {
            keys_of(self.channels()).index_of_first_ensures(channel_id@);
        }
        match find_string_key(&self.channel_states, &ch) {
            None => {
                let mut msg = "Unknown channel ".to_owned();
                msg.append(channel_id);
                Err(DexError::Other(msg))
            },
            Some(i) => {
                assert(lookup_spec(self.channels(), channel_id@) == Some(self.channel_states@[i as int].1));
                if bytes_eq(published_commit, self.channel_states[i].1.latest_commitment_tx.as_slice()) {
                    return Ok(false);
                }
                let ghost old_banned = self.banned();
                let ghost old_frozen = self.frozen();
                insert_text(&mut self.banned_accounts, ch.clone());
                insert_text(&mut self.frozen_balances, ch.clone());
                self.log_audit_entry(channel_id);
                let count = self.add_vote(&ch, sender_watchtower_id.to_owned());
                let ghost voted = self.votes();
                if count >= self.threshold {
                    let punished = self.punish_cheater(channel_id);
                    proof {
                        crate::kv::lemma_remove_distinct(self.votes(), ch@);
                    }
                    let ghost v_before = self.votes@;
                    remove_string_keyed(&mut self.votes, &ch);
                    proof {
                        lemma_vote_view_remove(v_before, self.votes@, ch@);
                    }
                }
                Ok(true)
            },
        }
    }

    /// What receiving a gossiped notice of kind `msg_type` about `target`
    /// does: a `ban_notice` bans its target, and a target not banned before
    /// gets the audit line; other notices change nothing.
    pub open spec fn receive_post(pre: Self, post: Self, msg_type: Seq<char>, target: Seq<char>) -> bool {
        &&& post.channels() == pre.channels()
        &&& post.votes() == pre.votes()
        &&& post.threshold() == pre.threshold()
        &&& post.frozen() == pre.frozen()
        &&& post.node_id() == pre.node_id()
        &&& msg_type != "ban_notice"@ ==> post.banned() == pre.banned() && post.audit() == pre.audit()
        &&& msg_type == "ban_notice"@ ==> if pre.banned().contains(target) {
            post.banned() == pre.banned() && post.audit() == pre.audit()
        } else {
            &&& post.banned() == pre.banned().push(target)
            &&& post.audit() == pre.audit().push(fraud_audit_line(target))
        }
    }

    /// The ban notice this watchtower broadcasts for a fraudulent channel.
    pub fn send_gossip_alert(&self, channel_id: &str) -> (res: GossipMessage)
        ensures
            res.node_id@ == self.node_id(),
            res.msg_type@ == "ban_notice"@,
            res.target@ == channel_id@,
            res.severity@ == "critical"@,
            res.reason@ == "confirmed fraud detection"@,
            res.ttl == 86400,
            res.signature matches Some(s) && s@ == "signed_proof_placeholder"@,
    {
        GossipMessage::new(
            self.node_id.clone(),
            String::from_str("ban_notice"),
            String::from_str(channel_id),
            String::from_str("critical"),
            String::from_str("confirmed fraud detection"),
            86400,
            Some(String::from_str("signed_proof_placeholder")),
        )
    }

    /// Receives a gossiped ban notice: a `ban_notice` bans its target, and a
    /// target not banned before gets the audit line; other notices are ignored.
    pub fn receive_ban_notice(&mut self, msg: &GossipMessage)
        requires
            old(self).wf(),
        ensures
            final(self).wf(),
            Self::receive_post(*old(self), *final(self), msg.msg_type@, msg.target@),
    {
        let kind = "ban_notice".to_owned();
        if msg.msg_type == kind {
            let target = msg.target.clone();
            if insert_text(&mut self.banned_accounts, target) {
                self.log_audit_entry(msg.target.as_str());
            }
        }
    }

    /// Carries out the final, collective punishment of a cheater; it always
    /// succeeds.
    pub fn punish_cheater(&self, channel_id: &str) -> (res: Result<(), DexError>)
        ensures
            res is Ok,
    {
        Ok(())
    }

    /// Whether `channel_id` is banned.
    pub fn is_banned(&self, channel_id: &str) -> (res: bool)
        ensures
            res == self.banned().contains(channel_id@),
    {
        let id = channel_id.to_owned();
        contains_text(&self.banned_accounts, &id)
    }
}

proof fn lemma_vote_view_remove(v: Seq<(String, Vec<String>)>, w: Seq<(String, Vec<String>)>, ch: Seq<char>)
    requires
        string_keyed(w) == remove_spec(string_keyed(v), ch),
        forall|i: int| 0 <= i < v.len() ==> (#[trigger] texts(v[i].1@)).no_duplicates(),
    ensures
        vote_view(w) == remove_spec(vote_view(v), ch),
        forall|i: int| 0 <= i < w.len() ==> (#[trigger] texts(w[i].1@)).no_duplicates(),
{
    assert(keys_of(vote_view(v)) =~= keys_of(string_keyed(v)));
    keys_of(string_keyed(v)).index_of_first_ensures(ch);
    match keys_of(string_keyed(v)).index_of_first(ch) {
        Some(i) => {
            assert(string_keyed(w) == string_keyed(v).remove(i));
            assert(w.len() == v.len() - 1);
            assert forall|j: int| 0 <= j < w.len() implies #[trigger] vote_view(w)[j] == vote_view(v)[if j < i { j } else { j + 1 }]
                && texts(w[j].1@).no_duplicates() by {
                let jj = if j < i { j } else { j + 1 };
                assert(string_keyed(w)[j] == string_keyed(v)[jj]);
                assert(w[j].0@ == v[jj].0@);
                assert(w[j].1 == v[jj].1);
                assert(texts(v[jj].1@).no_duplicates());
            }
            assert(vote_view(w) =~= vote_view(v).remove(i));
            assert forall|j: int| 0 <= j < w.len() implies (#[trigger] texts(w[j].1@)).no_duplicates() by {
                let jj = if j < i { j } else { j + 1 };
                assert(string_keyed(w)[j] == string_keyed(v)[jj]);
                assert(texts(v[jj].1@).no_duplicates());
            }
        },
        None => {
            assert(string_keyed(w) == string_keyed(v));
            assert(w.len() == v.len());
            assert forall|j: int| 0 <= j < w.len() implies #[trigger] vote_view(w)[j] == vote_view(v)[j]
                && texts(w[j].1@).no_duplicates() by {
                assert(string_keyed(w)[j] == string_keyed(v)[j]);
                assert(texts(v[j].1@).no_duplicates());
            }
            assert(vote_view(w) =~= vote_view(v));
            assert forall|j: int| 0 <= j < w.len() implies (#[trigger] texts(w[j].1@)).no_duplicates() by {
                assert(string_keyed(w)[j] == string_keyed(v)[j]);
                assert(texts(v[j].1@).no_duplicates());
            }
        },
    }
}

/// A detected fraud always leaves the channel banned and frozen, with the
/// fraud recorded as the latest audit line.
pub proof fn lemma_fraud_bans(
    pre: Watchtower,
    post: Watchtower,
    channel_id: Seq<char>,
    published: Seq<u8>,
    sender: Seq<char>,
)
    requires
        Watchtower::check_post(pre, post, channel_id, published, sender, Ok::<bool, DexError>(true)),
    ensures
        post.banned().contains(channel_id),
        post.frozen().contains(channel_id),
        post.audit().last() == fraud_audit_line(channel_id),
{
    match lookup_spec(pre.channels(), channel_id) {
        None => {},
        Some(st) => {
            if !pre.banned().contains(channel_id) {
                assert(post.banned().last() == channel_id);
                assert(post.banned()[post.banned().len() - 1] == channel_id);
            }
            if !pre.frozen().contains(channel_id) {
                assert(post.frozen()[post.frozen().len() - 1] == channel_id);
            }
        },
    }
}

/// A published commitment equal to the latest known one is no fraud and
/// changes nothing.
pub proof fn lemma_honest_commitment_unchanged(
    pre: Watchtower,
    post: Watchtower,
    channel_id: Seq<char>,
    sender: Seq<char>,
    res: Result<bool, DexError>,
)
    requires
        lookup_spec(pre.channels(), channel_id) is Some,
        Watchtower::check_post(
            pre,
            post,
            channel_id,
            lookup_spec(pre.channels(), channel_id).unwrap().latest_commitment_tx@,
            sender,
            res,
        ),
    ensures
        res == Ok::<bool, DexError>(false),
        post == pre,
{
}

/// A watchtower that receives a ban notice (such as the one
/// `send_gossip_alert` makes) has the notice's target banned afterwards.
pub proof fn lemma_ban_notice_bans(pre: Watchtower, post: Watchtower, target: Seq<char>)
    requires
        Watchtower::receive_post(pre, post, "ban_notice"@, target),
    ensures
        post.banned().contains(target),
{
    if !pre.banned().contains(target) {
        assert(post.banned()[post.banned().len() - 1] == target);
    }
}


/// Fraud is exactly a published commitment whose bytes differ from the
/// latest registered commitment of a known channel: the check answers
/// `Ok(true)` then, and the channel is banned and frozen afterwards; it
/// answers `Ok(false)` only when the bytes are equal, and fails only for an
/// unknown channel.
pub proof fn lemma_differing_commitment_is_fraud(
    pre: Watchtower,
    post: Watchtower,
    channel_id: Seq<char>,
    published: Seq<u8>,
    sender: Seq<char>,
    res: Result<bool, DexError>,
)
    requires
        Watchtower::check_post(pre, post, channel_id, published, sender, res),
    ensures
        res is Err <==> lookup_spec(pre.channels(), channel_id) is None,
        lookup_spec(pre.channels(), channel_id) matches Some(st) ==> {
            &&& (res == Ok::<bool, DexError>(true) <==> published != st.latest_commitment_tx@)
            &&& (res == Ok::<bool, DexError>(false) <==> published == st.latest_commitment_tx@)
            &&& published != st.latest_commitment_tx@ ==> post.banned().contains(channel_id) && post.frozen().contains(channel_id)
        },
{
    if let Some(st) = lookup_spec(pre.channels(), channel_id) {
        if published != st.latest_commitment_tx@ {
            lemma_fraud_bans(pre, post, channel_id, published, sender);
        }
    }
}

} // verus!
