use vstd::prelude::*;

use crate::kv::{find_string_key, insert_spec, keys_of, lookup_spec, string_keyed};
use crate::network::p2p::NodeId;

verus! {

/// A list of node identifiers, as byte sequences.
pub open spec fn node_ids(v: Seq<NodeId>) -> Seq<Seq<u8>> {
    v.map_values(|n: NodeId| n.0@)
}

/// The replica sets per shard, seen through the node identifiers' bytes.
pub open spec fn replica_view(v: Seq<(u32, Vec<NodeId>)>) -> Seq<(u32, Seq<Seq<u8>>)> {
    v.map_values(|p: (u32, Vec<NodeId>)| (p.0, node_ids(p.1@)))
}

/// The replicas recorded for `shard` (none if the shard is unknown).
pub open spec fn replicas_of(v: Seq<(u32, Seq<Seq<u8>>)>, shard: u32) -> Seq<Seq<u8>> {
    match lookup_spec(v, shard) {
        Some(s) => s,
        None => Seq::empty(),
    }
}

/// `set` with `node` added unless it is already in it.
pub open spec fn add_id(set: Seq<Seq<u8>>, node: Seq<u8>) -> Seq<Seq<u8>> {
    if set.contains(node) {
        set
    } else {
        set.push(node)
    }
}

/// The replica sets after `node` is recorded as holding `shard`.
pub open spec fn with_replica(v: Seq<(u32, Seq<Seq<u8>>)>, shard: u32, node: Seq<u8>) -> Seq<(u32, Seq<Seq<u8>>)> {
    insert_spec(v, shard, add_id(replicas_of(v, shard), node))
}

/// `set` without the first occurrence of `node`.
pub open spec fn remove_id(set: Seq<Seq<u8>>, node: Seq<u8>) -> Seq<Seq<u8>> {
    match set.index_of_first(node) {
        Some(p) => set.remove(p),
        None => set,
    }
}

/// The replica sets after `node` is recorded as no longer holding `shard`
/// (an unknown shard is left unlisted).
pub open spec fn without_replica(v: Seq<(u32, Seq<Seq<u8>>)>, shard: u32, node: Seq<u8>) -> Seq<(u32, Seq<Seq<u8>>)> {
    if lookup_spec(v, shard) is None {
        v
    } else {
        insert_spec(v, shard, remove_id(replicas_of(v, shard), node))
    }
}

/// The subscriptions per node, seen as texts and shard lists.
pub open spec fn subscription_view(v: Seq<(String, Vec<u32>)>) -> Seq<(Seq<char>, Seq<u32>)> {
    v.map_values(|p: (String, Vec<u32>)| (p.0@, p.1@))
}

/// The nodes (in list order) whose subscriptions include `shard`.
pub open spec fn subscribers_of(v: Seq<(Seq<char>, Seq<u32>)>, shard: u32) -> Seq<Seq<char>>
    decreases v.len(),
{
    if v.len() == 0 {
        Seq::empty()
    } else if v.last().1.contains(shard) {
        subscribers_of(v.drop_last(), shard).push(v.last().0)
    } else {
        subscribers_of(v.drop_last(), shard)
    }
}

fn find_shard(v: &Vec<(u32, Vec<NodeId>)>, shard: u32) -> (res: Option<usize>)
    ensures
        res is None <==> keys_of(replica_view(v@)).index_of_first(shard) is None,
        res is Some ==> keys_of(replica_view(v@)).index_of_first(shard) == Some(res.unwrap() as int),
        res is Some ==> res.unwrap() < v@.len(),
{
    let ghost ks = keys_of(replica_view(v@));
    let mut i: usize = 0;
    while i < v.len()
        invariant
            ks == keys_of(replica_view(v@)),
            i <= v@.len(),
            forall|j: int| 0 <= j < i ==> ks[j] != shard,
        decreases v@.len() - i,
    {
        if v[i].0 == shard {
            proof {
                ks.index_of_first_ensures(shard);
                assert(ks[i as int] == shard);
                assert(ks.contains(shard));
                let k = ks.index_of_first(shard).unwrap();
                if k < i {
                    assert(ks[k] != shard);
                }
                if k > i {
                    assert(ks[i as int] == shard);
                }
            }
            return Some(i);
        }
        i = i + 1;
    }
    proof {
        ks.index_of_first_ensures(shard);
        if ks.index_of_first(shard) is Some {
            let k = ks.index_of_first(shard).unwrap();
            assert(ks[k] != shard);
        }
    }
    None
}

fn find_node(v: &Vec<NodeId>, node: &NodeId) -> (res: Option<usize>)
    ensures
        res is None <==> !node_ids(v@).contains(node.0@),
        res is Some ==> res.unwrap() < v@.len() && node_ids(v@).index_of_first(node.0@) == Some(res.unwrap() as int),
{
    let ghost ks = node_ids(v@);
    let mut i: usize = 0;
    while i < v.len()
        invariant
            ks == node_ids(v@),
            i <= v@.len(),
            forall|j: int| 0 <= j < i ==> ks[j] != node.0@,
        decreases v@.len() - i,
    {
        if v[i].same_as(node) {
            proof {
                ks.index_of_first_ensures(node.0@);
                assert(ks[i as int] == node.0@);
                assert(ks.contains(node.0@));
                let k = ks.index_of_first(node.0@).unwrap();
                if k < i {
                    assert(ks[k] != node.0@);
                }
                if k > i {
                    assert(ks[i as int] == node.0@);
                }
            }
            return Some(i);
        }
        i = i + 1;
    }
    None
}

/// Which nodes hold a copy of which shard, and how many copies each shard
/// should have.
#[derive(Debug)]
pub struct ShardReplicaInfo {
    pub shard_replicas: Vec<(u32, Vec<NodeId>)>,
    pub replication_factor: usize,
}

impl ShardReplicaInfo {
    /// The replica sets, as identifier bytes.
    pub open spec fn view_replicas(&self) -> Seq<(u32, Seq<Seq<u8>>)> {
        replica_view(self.shard_replicas@)
    }

    /// No shard is listed twice and no replica set names a node twice.
    pub open spec fn wf(&self) -> bool {
        &&& keys_of(self.view_replicas()).no_duplicates()
        &&& forall|i: int| 0 <= i < self.shard_replicas@.len() ==> (#[trigger] node_ids(self.shard_replicas@[i].1@)).no_duplicates()
    }

    /// No replicas recorded yet.
    pub fn new(replication_factor: usize) -> (res: Self)
        ensures
            res.wf(),
            res.view_replicas().len() == 0,
            res.replication_factor == replication_factor,
    {
        let res = ShardReplicaInfo { shard_replicas: Vec::new(), replication_factor };
        assert(keys_of(res.view_replicas()) =~= Seq::<u32>::empty());
        res
    }

    /// The nodes holding `shard_id` (none for an unknown shard).
    pub fn get_replicas(&self, shard_id: u32) -> (res: Vec<NodeId>)
        ensures
            node_ids(res@) == replicas_of(self.view_replicas(), shard_id),
    {
        proof {
            keys_of(self.view_replicas()).index_of_first_ensures(shard_id);
        }
        match find_shard(&self.shard_replicas, shard_id) {
            Some(i) => {
                let set = &self.shard_replicas[i].1;
                let mut out: Vec<NodeId> = Vec::new();
                let mut j: usize = 0;
                while j < set.len()
                    invariant
                        j <= set@.len(),
                        out@ == set@.take(j as int),
                    decreases set@.len() - j,
                {
                    out.push(set[j]);
                    j = j + 1;
                    assert(out@ =~= set@.take(j as int));
                }
                assert(set@.take(set@.len() as int) =~= set@);
                out
            },
            None => Vec::new(),
        }
    }

    /// Records that `node_id` holds a copy of `shard_id`.
    pub fn add_replica(&mut self, shard_id: u32, node_id: NodeId)
        requires
            old(self).wf(),
        ensures
            final(self).wf(),
            final(self).replication_factor == old(self).replication_factor,
            final(self).view_replicas() == with_replica(old(self).view_replicas(), shard_id, node_id.0@),
    {
        let ghost old_v = self.view_replicas();
        proof {
            keys_of(old_v).index_of_first_ensures(shard_id);
        }
        match find_shard(&self.shard_replicas, shard_id) {
            Some(i) => {
                let (sid, mut set) = self.shard_replicas.remove(i);
                let ghost old_set = node_ids(set@);
                assert(old_set == old_v[i as int].1);
                if find_node(&set, &node_id).is_none() {
                    set.push(node_id);
                }
                let ghost new_set = node_ids(set@);
                assert(new_set =~= if old_set.contains(node_id.0@) { old_set } else { old_set.push(node_id.0@) });
                self.shard_replicas.insert(i, (sid, set));
                proof {
                    assert(self.view_replicas() =~= old_v.update(i as int, (shard_id, new_set)));
                    crate::kv::lemma_insert_distinct(old_v, shard_id, new_set);
                    assert forall|j: int| 0 <= j < self.shard_replicas@.len() implies (#[trigger] node_ids(self.shard_replicas@[j].1@)).no_duplicates() by {
                        if j != i {
                            assert(self.shard_replicas@[j] == old(self).shard_replicas@[j]);
                        } else {
                            assert(node_ids(old(self).shard_replicas@[i as int].1@) == old_set);
                            assert(old_set.no_duplicates());
                        }
                    }
                }
            },
            None => {
                let mut set: Vec<NodeId> = Vec::new();
                set.push(node_id);
                let ghost new_set = node_ids(set@);
                assert(new_set =~= Seq::<Seq<u8>>::empty().push(node_id.0@));
                self.shard_replicas.push((shard_id, set));
                proof {
                    assert(self.view_replicas() =~= old_v.push((shard_id, new_set)));
                    crate::kv::lemma_insert_distinct(old_v, shard_id, new_set);
                    assert forall|j: int| 0 <= j < self.shard_replicas@.len() implies (#[trigger] node_ids(self.shard_replicas@[j].1@)).no_duplicates() by {
                        if j < old(self).shard_replicas@.len() {
                            assert(self.shard_replicas@[j] == old(self).shard_replicas@[j]);
                        }
                    }
                }
            },
        }
    }

    /// Records that `node_id` no longer holds `shard_id` (the shard stays
    /// listed, possibly with no replicas).
    pub fn remove_replica(&mut self, shard_id: u32, node_id: &NodeId)
        requires
            old(self).wf(),
        ensures
            final(self).wf(),
            final(self).replication_factor == old(self).replication_factor,
            final(self).view_replicas() == without_replica(old(self).view_replicas(), shard_id, node_id.0@),
    {
        let ghost old_v = self.view_replicas();
        proof {
            keys_of(old_v).index_of_first_ensures(shard_id);
        }
        if let Some(i) = find_shard(&self.shard_replicas, shard_id) {
            let (sid, mut set) = self.shard_replicas.remove(i);
            let ghost old_set = node_ids(set@);
            assert(old_set == old_v[i as int].1);
            proof {
                old_set.index_of_first_ensures(node_id.0@);
            }
            if let Some(p) = find_node(&set, node_id) {
                set.remove(p);
                assert(node_ids(set@) =~= old_set.remove(p as int));
            }
            let ghost new_set = node_ids(set@);
            self.shard_replicas.insert(i, (sid, set));
            proof {
                assert(self.view_replicas() =~= old_v.update(i as int, (shard_id, new_set)));
                crate::kv::lemma_insert_distinct(old_v, shard_id, new_set);
                assert forall|j: int| 0 <= j < self.shard_replicas@.len() implies (#[trigger] node_ids(self.shard_replicas@[j].1@)).no_duplicates() by {
                    if j != i {
                        assert(self.shard_replicas@[j] == old(self).shard_replicas@[j]);
                    } else {
                        assert(node_ids(old(self).shard_replicas@[i as int].1@) == old_set);
                        assert(old_set.no_duplicates());
                        match node_ids_index(old_set, node_id.0@) {
                            Some(p) => {
                                assert forall|a: int, b: int| 0 <= a < new_set.len() && 0 <= b < new_set.len() && a != b implies new_set[a] != new_set[b] by {
                                    let oa = if a < p { a } else { a + 1 };
                                    let ob = if b < p { b } else { b + 1 };
                                    assert(new_set[a] == old_set[oa]);
                                    assert(new_set[b] == old_set[ob]);
                                }
                            },
                            None => {},
                        }
                    }
                }
            }
        }
    }

    /// Whether `shard_id` has fewer replicas than the replication factor.
    pub fn needs_new_replica(&self, shard_id: u32) -> (res: bool)
        ensures
            res == (replicas_of(self.view_replicas(), shard_id).len() < self.replication_factor),
    {
        let current = self.get_replicas(shard_id).len();
        current < self.replication_factor
    }
}

/// The replica sets after node `dead` failed: it leaves every set it was in.
pub open spec fn without_node(v: Seq<(u32, Seq<Seq<u8>>)>, dead: Seq<u8>) -> Seq<(u32, Seq<Seq<u8>>)> {
    v.map_values(|p: (u32, Seq<Seq<u8>>)| (p.0, match p.1.index_of_first(dead) {
        Some(i) => p.1.remove(i),
        None => p.1,
    }))
}

/// The shards, in list order, that held a copy on `dead` and are left with
/// fewer than `rf` copies without it.
pub open spec fn shards_to_rereplicate(v: Seq<(u32, Seq<Seq<u8>>)>, dead: Seq<u8>, rf: nat) -> Seq<u32>
    decreases v.len(),
{
    if v.len() == 0 {
        Seq::empty()
    } else {
        let rest = shards_to_rereplicate(v.drop_last(), dead, rf);
        let last = v.last();
        if last.1.contains(dead) && last.1.len() - 1 < rf {
            rest.push(last.0)
        } else {
            rest
        }
    }
}

impl ShardReplicaInfo {
    /// Node `dead` failed: it is removed from every replica set, and the
    /// shards that fall below the replication factor because of it are
    /// returned, in list order, for re-replication.
    pub fn handle_node_failure(&mut self, dead: &NodeId) -> (res: Vec<u32>)
        requires
            old(self).wf(),
        ensures
            final(self).wf(),
            final(self).replication_factor == old(self).replication_factor,
            final(self).view_replicas() == without_node(old(self).view_replicas(), dead.0@),
            res@ == shards_to_rereplicate(old(self).view_replicas(), dead.0@, old(self).replication_factor as nat),
    {
        let ghost old_v = self.view_replicas();
        let ghost rf = self.replication_factor as nat;
        let mut out: Vec<u32> = Vec::new();
        let n = self.shard_replicas.len();
        let mut i: usize = 0;
        assert(old_v.take(0) =~= Seq::<(u32, Seq<Seq<u8>>)>::empty());
        while i < n
            invariant
                n == self.shard_replicas@.len(),
                old_v.len() == n,
                rf == self.replication_factor,
                self.replication_factor == old(self).replication_factor,
                i <= n,
                keys_of(self.view_replicas()) == keys_of(old_v),
                forall|k: int| 0 <= k < n ==> (#[trigger] node_ids(self.shard_replicas@[k].1@)).no_duplicates(),
                forall|k: int| 0 <= k < i ==> #[trigger] self.view_replicas()[k] == without_node(old_v, dead.0@)[k],
                forall|k: int| i <= k < n ==> #[trigger] self.view_replicas()[k] == old_v[k],
                out@ == shards_to_rereplicate(old_v.take(i as int), dead.0@, rf),
            decreases n - i,
        {
            let ghost pre_v = self.view_replicas();
            let ghost pre_list = self.shard_replicas@;
            assert(pre_v[i as int] == old_v[i as int]);
            let (sid, mut set) = self.shard_replicas.remove(i);
            let ghost old_set = node_ids(set@);
            assert(old_set == old_v[i as int].1);
            proof {
                old_set.index_of_first_ensures(dead.0@);
            }
            let pos = find_node(&set, dead);
            let mut needs = false;
            if let Some(p) = pos {
                set.remove(p);
                assert(node_ids(set@) =~= old_set.remove(p as int));
                needs = set.len() < self.replication_factor;
            }
            let ghost new_set = node_ids(set@);
            self.shard_replicas.insert(i, (sid, set));
            proof {
                assert(self.shard_replicas@ =~= pre_list.update(i as int, self.shard_replicas@[i as int]));
                assert(self.view_replicas() =~= pre_v.update(i as int, (sid, new_set)));
                assert(without_node(old_v, dead.0@)[i as int] == (sid, new_set));
                assert(keys_of(self.view_replicas()) =~= keys_of(pre_v));
                assert forall|k: int| 0 <= k < n implies (#[trigger] node_ids(self.shard_replicas@[k].1@)).no_duplicates() by {
                    if k != i {
                        assert(self.shard_replicas@[k] == pre_list[k]);
                    } else {
                        assert(node_ids(pre_list[i as int].1@) == old_set);
                        if let Some(p) = pos {
                            assert forall|a: int, b: int| 0 <= a < new_set.len() && 0 <= b < new_set.len() && a != b implies new_set[a] != new_set[b] by {
                                let oa = if a < p { a } else { a + 1 };
                                let ob = if b < p { b } else { b + 1 };
                                assert(new_set[a] == old_set[oa]);
                                assert(new_set[b] == old_set[ob]);
                            }
                        }
                    }
                }
                assert(old_v.take(i + 1).drop_last() =~= old_v.take(i as int));
                assert(old_v.take(i + 1).last() == old_v[i as int]);
                assert(old_set.contains(dead.0@) <==> pos is Some);
            }
            if needs {
                out.push(sid);
            }
            i = i + 1;
        }
        proof {
            assert(old_v.take(n as int) =~= old_v);
            assert(self.view_replicas() =~= without_node(old_v, dead.0@));
        }
        out
    }
}

/// Whether a candidate may receive a new copy: it holds none yet and is
/// neither the local node nor the failed one.
pub open spec fn eligible(c: NodeId, existing: Seq<Seq<u8>>, local: NodeId, failed: NodeId) -> bool {
    &&& !existing.contains(c.0@)
    &&& c.0@ != local.0@
    &&& c.0@ != failed.0@
}

/// The first eligible candidate, in order.
pub open spec fn first_new_replica<A>(cands: Seq<(NodeId, A)>, existing: Seq<Seq<u8>>, local: NodeId, failed: NodeId) -> Option<NodeId>
    decreases cands.len(),
{
    if cands.len() == 0 {
        None
    } else if eligible(cands[0].0, existing, local, failed) {
        Some(cands[0].0)
    } else {
        first_new_replica(cands.drop_first(), existing, local, failed)
    }
}

/// The chosen candidate is eligible and is one of the candidates; none is
/// chosen only when no candidate is eligible.
pub proof fn lemma_new_replica_eligible<A>(cands: Seq<(NodeId, A)>, existing: Seq<Seq<u8>>, local: NodeId, failed: NodeId)
    ensures
        first_new_replica(cands, existing, local, failed) matches Some(n) ==> eligible(n, existing, local, failed)
            && exists|i: int| 0 <= i < cands.len() && #[trigger] cands[i].0 == n,
        first_new_replica(cands, existing, local, failed) is None ==> forall|i: int| 0 <= i < cands.len() ==> !eligible(#[trigger] cands[i].0, existing, local, failed),
    decreases cands.len(),
{
    if cands.len() > 0 {
        lemma_new_replica_eligible(cands.drop_first(), existing, local, failed);
        if eligible(cands[0].0, existing, local, failed) {
            assert(cands[0].0 == cands[0].0);
        } else {
            if first_new_replica(cands, existing, local, failed) is Some {
                let n = first_new_replica(cands, existing, local, failed).unwrap();
                let i = choose|i: int| 0 <= i < cands.drop_first().len() && #[trigger] cands.drop_first()[i].0 == n;
                assert(cands[i + 1].0 == n);
            }
            assert forall|i: int| 0 <= i < cands.len() && first_new_replica(cands, existing, local, failed) is None implies !eligible(#[trigger] cands[i].0, existing, local, failed) by {
                if i > 0 {
                    assert(cands[i].0 == cands.drop_first()[i - 1].0);
                }
            }
        }
    }
}

/// Chooses the node to receive a new copy of a shard: the first of
/// `candidates` (nearest first) that holds no copy yet and is neither the
/// local node nor the node that failed.
pub fn choose_new_replica<A: Copy>(candidates: &Vec<(NodeId, A)>, existing: &Vec<NodeId>, local: &NodeId, failed: &NodeId) -> (res: Option<NodeId>)
    ensures
        res == first_new_replica(candidates@, node_ids(existing@), *local, *failed),
{
    let mut i: usize = 0;
    assert(candidates@.skip(0) =~= candidates@);
    while i < candidates.len()
        invariant
            i <= candidates@.len(),
            first_new_replica(candidates@, node_ids(existing@), *local, *failed)
                == first_new_replica(candidates@.skip(i as int), node_ids(existing@), *local, *failed),
        decreases candidates@.len() - i,
    {
        let ghost rest = candidates@.skip(i as int);
        assert(rest.drop_first() =~= candidates@.skip(i + 1));
        let nid = candidates[i].0;
        if find_node(existing, &nid).is_none() && !nid.same_as(local) && !nid.same_as(failed) {
            return Some(nid);
        }
        i = i + 1;
    }
    None
}

/// One healing step for `shard`: when this node holds the shard, the first
/// eligible candidate is recorded as a new replica and reported.
pub open spec fn heal_step<A>(
    st: (Seq<(u32, Seq<Seq<u8>>)>, Seq<(u32, NodeId)>),
    shard: u32,
    held: Seq<u32>,
    cands: Seq<(NodeId, A)>,
    local: NodeId,
    failed: NodeId,
) -> (Seq<(u32, Seq<Seq<u8>>)>, Seq<(u32, NodeId)>) {
    if !held.contains(shard) {
        st
    } else {
        match first_new_replica(cands, replicas_of(st.0, shard), local, failed) {
            Some(n) => (with_replica(st.0, shard, n.0@), st.1.push((shard, n))),
            None => st,
        }
    }
}

/// The healing steps for `shards`, in order.
pub open spec fn heal_all<A>(
    st: (Seq<(u32, Seq<Seq<u8>>)>, Seq<(u32, NodeId)>),
    shards: Seq<u32>,
    held: Seq<u32>,
    cands: Seq<(NodeId, A)>,
    local: NodeId,
    failed: NodeId,
) -> (Seq<(u32, Seq<Seq<u8>>)>, Seq<(u32, NodeId)>)
    decreases shards.len(),
{
    if shards.len() == 0 {
        st
    } else {
        heal_step(heal_all(st, shards.drop_last(), held, cands, local, failed), shards.last(), held, cands, local, failed)
    }
}

impl ShardReplicaInfo {
    /// Node `failed` is gone: it leaves every replica set, and each shard
    /// that falls below the replication factor because of it and that this
    /// node holds (`held`) gets, in list order, the first of `candidates`
    /// (nearest first) that holds no copy of it and is neither this node
    /// (`local`) nor the failed one. The new replicas are recorded and
    /// returned, as (shard, node), for their snapshots to be sent.
    pub fn on_node_failed<A: Copy>(&mut self, failed: &NodeId, held: &Vec<u32>, candidates: &Vec<(NodeId, A)>, local: &NodeId) -> (res: Vec<(u32, NodeId)>)
        requires
            old(self).wf(),
        ensures
            final(self).wf(),
            final(self).replication_factor == old(self).replication_factor,
            (final(self).view_replicas(), res@) == heal_all(
                (without_node(old(self).view_replicas(), failed.0@), Seq::empty()),
                shards_to_rereplicate(old(self).view_replicas(), failed.0@, old(self).replication_factor as nat),
                held@,
                candidates@,
                *local,
                *failed,
            ),
    {
        let ghost start = (without_node(old(self).view_replicas(), failed.0@), Seq::<(u32, NodeId)>::empty());
        let shards = self.handle_node_failure(failed);
        let mut out: Vec<(u32, NodeId)> = Vec::new();
        let mut i: usize = 0;
        assert(shards@.take(0) =~= Seq::<u32>::empty());
        while i < shards.len()
            invariant
                i <= shards@.len(),
                self.wf(),
                self.replication_factor == old(self).replication_factor,
                (self.view_replicas(), out@) == heal_all(start, shards@.take(i as int), held@, candidates@, *local, *failed),
            decreases shards@.len() - i,
        {
            let s = shards[i];
            proof {
                assert(shards@.take(i + 1).drop_last() =~= shards@.take(i as int));
                assert(shards@.take(i + 1).last() == s);
            }
            if contains_u32(held, s) {
                let existing = self.get_replicas(s);
                match choose_new_replica(candidates, &existing, local, failed) {
                    Some(n) => {
                        self.add_replica(s, n);
                        out.push((s, n));
                    },
                    None => {},
                }
            }
            i = i + 1;
        }
        assert(shards@.take(shards@.len() as int) =~= shards@);
        out
    }
}

/// One maintenance step for `shard`: when it has fewer than `rf` replicas,
/// the first candidate that holds no copy and is not this node is recorded
/// as a new replica and reported.
pub open spec fn maintain_step<A>(
    st: (Seq<(u32, Seq<Seq<u8>>)>, Seq<(u32, NodeId)>),
    shard: u32,
    rf: nat,
    cands: Seq<(NodeId, A)>,
    local: NodeId,
) -> (Seq<(u32, Seq<Seq<u8>>)>, Seq<(u32, NodeId)>) {
    if replicas_of(st.0, shard).len() >= rf {
        st
    } else {
        match first_new_replica(cands, replicas_of(st.0, shard), local, local) {
            Some(n) => (with_replica(st.0, shard, n.0@), st.1.push((shard, n))),
            None => st,
        }
    }
}

/// The maintenance steps for `shards`, in order.
pub open spec fn maintain_all<A>(
    st: (Seq<(u32, Seq<Seq<u8>>)>, Seq<(u32, NodeId)>),
    shards: Seq<u32>,
    rf: nat,
    cands: Seq<(NodeId, A)>,
    local: NodeId,
) -> (Seq<(u32, Seq<Seq<u8>>)>, Seq<(u32, NodeId)>)
    decreases shards.len(),
{
    if shards.len() == 0 {
        st
    } else {
        maintain_step(maintain_all(st, shards.drop_last(), rf, cands, local), shards.last(), rf, cands, local)
    }
}

impl ShardReplicaInfo {
    /// Periodic upkeep of the shards this node holds (`held`, in order):
    /// each one below the replication factor gets the first of `candidates`
    /// (nearest first) that holds no copy of it and is not this node
    /// (`local`). The new replicas are recorded and returned, as (shard,
    /// node), for their snapshots to be sent.
    pub fn maintain_shards<A: Copy>(&mut self, held: &Vec<u32>, candidates: &Vec<(NodeId, A)>, local: &NodeId) -> (res: Vec<(u32, NodeId)>)
        requires
            old(self).wf(),
        ensures
            final(self).wf(),
            final(self).replication_factor == old(self).replication_factor,
            (final(self).view_replicas(), res@) == maintain_all(
                (old(self).view_replicas(), Seq::empty()),
                held@,
                old(self).replication_factor as nat,
                candidates@,
                *local,
            ),
    {
        let ghost start = (self.view_replicas(), Seq::<(u32, NodeId)>::empty());
        let mut out: Vec<(u32, NodeId)> = Vec::new();
        let mut i: usize = 0;
        assert(held@.take(0) =~= Seq::<u32>::empty());
        while i < held.len()
            invariant
                i <= held@.len(),
                self.wf(),
                self.replication_factor == old(self).replication_factor,
                (self.view_replicas(), out@) == maintain_all(start, held@.take(i as int), old(self).replication_factor as nat, candidates@, *local),
            decreases held@.len() - i,
        {
            let s = held[i];
            proof {
                assert(held@.take(i + 1).drop_last() =~= held@.take(i as int));
                assert(held@.take(i + 1).last() == s);
            }
            if self.needs_new_replica(s) {
                let existing = self.get_replicas(s);
                match choose_new_replica(candidates, &existing, local, local) {
                    Some(n) => {
                        self.add_replica(s, n);
                        out.push((s, n));
                    },
                    None => {},
                }
            }
            i = i + 1;
        }
        assert(held@.take(held@.len() as int) =~= held@);
        out
    }
}

/// Healing never hands a shard to the failed node or to this node: every
/// replica it adds is an eligible candidate, and what was reported before
/// stays as it was.
pub proof fn lemma_heal_picks_eligible<A>(
    st: (Seq<(u32, Seq<Seq<u8>>)>, Seq<(u32, NodeId)>),
    shards: Seq<u32>,
    held: Seq<u32>,
    cands: Seq<(NodeId, A)>,
    local: NodeId,
    failed: NodeId,
)
    ensures
        ({
            let r = heal_all(st, shards, held, cands, local, failed).1;
            &&& r.len() >= st.1.len()
            &&& forall|k: int| 0 <= k < st.1.len() ==> r[k] == st.1[k]
            &&& forall|k: int| st.1.len() <= k < r.len() ==> {
                &&& (#[trigger] r[k]).1.0@ != failed.0@
                &&& r[k].1.0@ != local.0@
                &&& exists|j: int| 0 <= j < cands.len() && #[trigger] cands[j].0 == r[k].1
            }
        }),
    decreases shards.len(),
{
    if shards.len() > 0 {
        lemma_heal_picks_eligible(st, shards.drop_last(), held, cands, local, failed);
        let mid = heal_all(st, shards.drop_last(), held, cands, local, failed);
        lemma_new_replica_eligible(cands, replicas_of(mid.0, shards.last()), local, failed);
    }
}

/// Recording a replica and then removing it again leaves every shard's
/// replicas as they were, when the node did not hold the shard before.
pub proof fn lemma_add_then_remove_restores(v: Seq<(u32, Seq<Seq<u8>>)>, shard: u32, node: Seq<u8>, other: u32)
    requires
        !replicas_of(v, shard).contains(node),
    ensures
        replicas_of(without_replica(with_replica(v, shard, node), shard, node), other) == replicas_of(v, other),
{
    let r = replicas_of(v, shard);
    let v1 = with_replica(v, shard, node);
    crate::kv::lemma_lookup_insert_same(v, shard, r.push(node));
    assert(replicas_of(v1, shard) == r.push(node));
    let rp = r.push(node);
    assert(rp[r.len() as int] == node);
    assert(rp.contains(node));
    rp.index_of_first_ensures(node);
    let p = rp.index_of_first(node).unwrap();
    if p < r.len() {
        assert(rp[p] == r[p]);
        assert(r.contains(node));
    }
    assert(p == r.len());
    assert(remove_id(r.push(node), node) =~= r);
    let v2 = without_replica(v1, shard, node);
    assert(v2 == insert_spec(v1, shard, r));
    if other == shard {
        crate::kv::lemma_lookup_insert_same(v1, shard, r);
    } else {
        crate::kv::lemma_lookup_insert_other(v1, shard, r, other);
        crate::kv::lemma_lookup_insert_other(v, shard, r.push(node), other);
    }
}

/// Removing a replica takes the node out of that shard's set (its first
/// occurrence) and leaves every other shard's replicas as they were.
pub proof fn lemma_remove_replica_effect(v: Seq<(u32, Seq<Seq<u8>>)>, shard: u32, node: Seq<u8>, other: u32)
    ensures
        replicas_of(without_replica(v, shard, node), shard) == remove_id(replicas_of(v, shard), node),
        other != shard ==> replicas_of(without_replica(v, shard, node), other) == replicas_of(v, other),
{
    if lookup_spec(v, shard) is Some {
        crate::kv::lemma_lookup_insert_same(v, shard, remove_id(replicas_of(v, shard), node));
        if other != shard {
            crate::kv::lemma_lookup_insert_other(v, shard, remove_id(replicas_of(v, shard), node), other);
        }
    } else {
        Seq::<Seq<u8>>::empty().index_of_first_ensures(node);
        assert(remove_id(Seq::<Seq<u8>>::empty(), node) =~= Seq::<Seq<u8>>::empty());
    }
}

/// The first position of `id` in a list of identifiers.
pub open spec fn node_ids_index(s: Seq<Seq<u8>>, id: Seq<u8>) -> Option<int> {
    s.index_of_first(id)
}

/// `set` without the first occurrence of `x`.
pub open spec fn remove_first<T>(set: Seq<T>, x: T) -> Seq<T> {
    match set.index_of_first(x) {
        Some(p) => set.remove(p),
        None => set,
    }
}

/// The subscriptions after `node` subscribes to `shard`.
pub open spec fn subscribed(v: Seq<(Seq<char>, Seq<u32>)>, node: Seq<char>, shard: u32) -> Seq<(Seq<char>, Seq<u32>)> {
    insert_spec(v, node, match lookup_spec(v, node) {
        Some(s) => if s.contains(shard) { s } else { s.push(shard) },
        None => seq![shard],
    })
}

/// The subscriptions after `node` unsubscribes from `shard` (an unknown
/// node changes nothing).
pub open spec fn unsubscribed(v: Seq<(Seq<char>, Seq<u32>)>, node: Seq<char>, shard: u32) -> Seq<(Seq<char>, Seq<u32>)> {
    match lookup_spec(v, node) {
        Some(s) => insert_spec(v, node, remove_first(s, shard)),
        None => v,
    }
}

/// Who subscribes to which shards.
#[derive(Clone, Debug)]
pub struct ShardSubscription {
    pub subscriptions: Vec<(String, Vec<u32>)>,
}

impl ShardSubscription {
    /// The subscriptions, as node texts and shard lists.
    pub open spec fn view_subscriptions(&self) -> Seq<(Seq<char>, Seq<u32>)> {
        subscription_view(self.subscriptions@)
    }

    /// No node is listed twice and no node lists a shard twice.
    pub open spec fn wf(&self) -> bool {
        &&& keys_of(self.view_subscriptions()).no_duplicates()
        &&& forall|i: int| 0 <= i < self.subscriptions@.len() ==> (#[trigger] self.subscriptions@[i].1@).no_duplicates()
    }

    /// Nobody subscribes to anything yet.
    pub fn new() -> (res: Self)
        ensures
            res.wf(),
            res.view_subscriptions().len() == 0,
    {
        let res = ShardSubscription { subscriptions: Vec::new() };
        assert(keys_of(res.view_subscriptions()) =~= Seq::<Seq<char>>::empty());
        res
    }

    /// Node `node_id` subscribes to `shard_id`.
    pub fn subscribe(&mut self, node_id: &str, shard_id: u32)
        requires
            old(self).wf(),
        ensures
            final(self).wf(),
            final(self).view_subscriptions() == subscribed(old(self).view_subscriptions(), node_id@, shard_id),
    {
        let ghost old_v = self.view_subscriptions();
        let key = node_id.to_owned();
        proof {
            keys_of(old_v).index_of_first_ensures(node_id@);
            assert(keys_of(string_keyed(self.subscriptions@)) =~= keys_of(old_v));
        }
        match find_string_key(&self.subscriptions, &key) {
            Some(i) => {
                let (name, mut set) = self.subscriptions.remove(i);
                let ghost old_set = set@;
                assert(old_set == old_v[i as int].1);
                if !contains_u32(&set, shard_id) {
                    set.push(shard_id);
                }
                let ghost new_set = set@;
                self.subscriptions.insert(i, (name, set));
                proof {
                    assert(self.view_subscriptions() =~= old_v.update(i as int, (node_id@, new_set)));
                    crate::kv::lemma_insert_distinct(old_v, node_id@, new_set);
                    assert forall|j: int| 0 <= j < self.subscriptions@.len() implies (#[trigger] self.subscriptions@[j].1@).no_duplicates() by {
                        if j != i {
                            assert(self.subscriptions@[j] == old(self).subscriptions@[j]);
                        } else {
                            assert(old(self).subscriptions@[i as int].1@ == old_set);
                        }
                    }
                }
            },
            None => {
                let mut set: Vec<u32> = Vec::new();
                set.push(shard_id);
                let ghost new_set = set@;
                assert(new_set =~= seq![shard_id]);
                self.subscriptions.push((key, set));
                proof {
                    assert(self.view_subscriptions() =~= old_v.push((node_id@, new_set)));
                    crate::kv::lemma_insert_distinct(old_v, node_id@, new_set);
                    assert forall|j: int| 0 <= j < self.subscriptions@.len() implies (#[trigger] self.subscriptions@[j].1@).no_duplicates() by {
                        if j < old(self).subscriptions@.len() {
                            assert(self.subscriptions@[j] == old(self).subscriptions@[j]);
                        }
                    }
                }
            },
        }
    }

    /// Node `node_id` unsubscribes from `shard_id` (an unknown node is ignored).
    pub fn unsubscribe(&mut self, node_id: &str, shard_id: u32)
        requires
            old(self).wf(),
        ensures
            final(self).wf(),
            final(self).view_subscriptions() == unsubscribed(old(self).view_subscriptions(), node_id@, shard_id),
    {
        let ghost old_v = self.view_subscriptions();
        let key = node_id.to_owned();
        proof {
            keys_of(old_v).index_of_first_ensures(node_id@);
            assert(keys_of(string_keyed(self.subscriptions@)) =~= keys_of(old_v));
        }
        if let Some(i) = find_string_key(&self.subscriptions, &key) {
            let (name, mut set) = self.subscriptions.remove(i);
            let ghost old_set = set@;
            assert(old_set == old_v[i as int].1);
            assert(lookup_spec(old_v, node_id@) == Some(old_set));
            let pos = position_u32(&set, shard_id);
            if let Some(p) = pos {
                set.remove(p);
                assert(set@ =~= old_set.remove(p as int));
            }
            let ghost new_set = set@;
            self.subscriptions.insert(i, (name, set));
            proof {
                assert(self.view_subscriptions() =~= old_v.update(i as int, (node_id@, new_set)));
                crate::kv::lemma_insert_distinct(old_v, node_id@, new_set);
                assert forall|j: int| 0 <= j < self.subscriptions@.len() implies (#[trigger] self.subscriptions@[j].1@).no_duplicates() by {
                    if j != i {
                        assert(self.subscriptions@[j] == old(self).subscriptions@[j]);
                    } else {
                        assert(old(self).subscriptions@[i as int].1@ == old_set);
                        if let Some(p) = pos {
                            assert forall|a: int, b: int| 0 <= a < new_set.len() && 0 <= b < new_set.len() && a != b implies new_set[a] != new_set[b] by {
                                let oa = if a < p { a } else { a + 1 };
                                let ob = if b < p { b } else { b + 1 };
                                assert(new_set[a] == old_set[oa]);
                                assert(new_set[b] == old_set[ob]);
                            }
                        }
                    }
                }
            }
        }
    }

    /// The nodes subscribed to `shard_id`, in subscription-list order.
    pub fn get_subscribers(&self, shard_id: u32) -> (res: Vec<String>)
        ensures
            crate::kv::texts(res@) == subscribers_of(self.view_subscriptions(), shard_id),
    {
        let mut out: Vec<String> = Vec::new();
        let n = self.subscriptions.len();
        let mut i: usize = 0;
        assert(self.view_subscriptions().take(0) =~= Seq::<(Seq<char>, Seq<u32>)>::empty());
        while i < n
            invariant
                n == self.subscriptions@.len(),
                i <= n,
                crate::kv::texts(out@) == subscribers_of(self.view_subscriptions().take(i as int), shard_id),
            decreases n - i,
        {
            proof {
                assert(self.view_subscriptions().take(i + 1).drop_last() =~= self.view_subscriptions().take(i as int));
            }
            if contains_u32(&self.subscriptions[i].1, shard_id) {
                let ghost before = crate::kv::texts(out@);
                let name = self.subscriptions[i].0.clone();
                out.push(name);
                assert(crate::kv::texts(out@) =~= before.push(self.subscriptions@[i as int].0@));
            }
            i = i + 1;
        }
        assert(self.view_subscriptions().take(n as int) =~= self.view_subscriptions());
        out
    }
}

/// The first position of `x` in `v`.
fn position_u32(v: &Vec<u32>, x: u32) -> (res: Option<usize>)
    ensures
        res is None ==> v@.index_of_first(x) is None,
        res matches Some(p) ==> p < v@.len() && v@.index_of_first(x) == Some(p as int),
{
    proof {
        v@.index_of_first_ensures(x);
    }
    let mut i: usize = 0;
    while i < v.len()
        invariant
            i <= v@.len(),
            forall|j: int| 0 <= j < i ==> v@[j] != x,
        decreases v@.len() - i,
    {
        if v[i] == x {
            proof {
                v@.index_of_first_ensures(x);
                assert(v@[i as int] == x);
                assert(v@.contains(x));
                let k = v@.index_of_first(x).unwrap();
                if k < i {
                    assert(v@[k] != x);
                }
                if k > i {
                    assert(v@[i as int] == x);
                }
            }
            return Some(i);
        }
        i = i + 1;
    }
    proof {
        if v@.index_of_first(x) is Some {
            let k = v@.index_of_first(x).unwrap();
            assert(v@[k] == x);
        }
    }
    None
}

/// Whether `v` holds `x`.
fn contains_u32(v: &Vec<u32>, x: u32) -> (res: bool)
    ensures
        res == v@.contains(x),
{
    let mut i: usize = 0;
    while i < v.len()
        invariant
            i <= v@.len(),
            forall|j: int| 0 <= j < i ==> v@[j] != x,
        decreases v@.len() - i,
    {
        if v[i] == x {
            return true;
        }
        i = i + 1;
    }
    false
}

/// After a node is recorded as a replica of a shard, the shard's replicas
/// include it, and every other shard's replicas are as they were.
pub proof fn lemma_add_replica_recorded(v: Seq<(u32, Seq<Seq<u8>>)>, shard: u32, node: Seq<u8>, other: u32)
    ensures
        replicas_of(with_replica(v, shard, node), shard).contains(node),
        other != shard ==> replicas_of(with_replica(v, shard, node), other) == replicas_of(v, other),
{
    let s = replicas_of(v, shard);
    let new_s = if s.contains(node) { s } else { s.push(node) };
    crate::kv::lemma_lookup_insert_same(v, shard, new_s);
    if !s.contains(node) {
        assert(new_s[s.len() as int] == node);
    }
    if other != shard {
        crate::kv::lemma_lookup_insert_other(v, shard, new_s, other);
    }
}

/// Removing a node from a replica set without repeats leaves it out of the
/// set.
pub proof fn lemma_remove_replica_gone(s: Seq<Seq<u8>>, node: Seq<u8>)
    requires
        s.no_duplicates(),
    ensures
        !(match node_ids_index(s, node) {
            Some(p) => s.remove(p),
            None => s,
        }).contains(node),
{
    s.index_of_first_ensures(node);
    match node_ids_index(s, node) {
        Some(p) => {
            let r = s.remove(p);
            if r.contains(node) {
                let k = choose|k: int| 0 <= k < r.len() && r[k] == node;
                let ok = if k < p { k } else { k + 1 };
                assert(s[ok] == node);
                assert(s[p] == node);
            }
        },
        None => {},
    }
}

proof fn lemma_subscriber_listed(v: Seq<(Seq<char>, Seq<u32>)>, i: int, shard: u32)
    requires
        0 <= i < v.len(),
        v[i].1.contains(shard),
    ensures
        subscribers_of(v, shard).contains(v[i].0),
    decreases v.len(),
{
    if i == v.len() - 1 {
        let r = subscribers_of(v, shard);
        assert(r.last() == v[i].0);
        assert(r[r.len() - 1] == v[i].0);
    } else {
        lemma_subscriber_listed(v.drop_last(), i, shard);
        let inner = subscribers_of(v.drop_last(), shard);
        let k = choose|k: int| 0 <= k < inner.len() && inner[k] == v[i].0;
        if v.last().1.contains(shard) {
            assert(subscribers_of(v, shard)[k] == v[i].0);
        }
    }
}

/// After a node subscribes to a shard, it is among the shard's subscribers.
pub proof fn lemma_subscribe_then_listed(v: Seq<(Seq<char>, Seq<u32>)>, node: Seq<char>, shard: u32)
    ensures
        subscribers_of(insert_spec(v, node, match lookup_spec(v, node) {
            Some(s) => if s.contains(shard) { s } else { s.push(shard) },
            None => seq![shard],
        }), shard).contains(node),
{
    let new_set = match lookup_spec(v, node) {
        Some(s) => if s.contains(shard) { s } else { s.push(shard) },
        None => seq![shard],
    };
    assert(new_set.contains(shard)) by {
        match lookup_spec(v, node) {
            Some(s) => {
                if !s.contains(shard) {
                    assert(new_set[s.len() as int] == shard);
                }
            },
            None => {
                assert(new_set[0] == shard);
            },
        }
    }
    keys_of(v).index_of_first_ensures(node);
    let w = insert_spec(v, node, new_set);
    match keys_of(v).index_of_first(node) {
        Some(i) => {
            assert(w[i] == (node, new_set));
            lemma_subscriber_listed(w, i, shard);
        },
        None => {
            assert(w[v.len() as int] == (node, new_set));
            lemma_subscriber_listed(w, v.len() as int, shard);
        },
    }
}


/// A subscribe (`true`) or unsubscribe (`false`) call: node and shard.
pub open spec fn apply_subscription(v: Seq<(Seq<char>, Seq<u32>)>, op: (bool, Seq<char>, u32)) -> Seq<(Seq<char>, Seq<u32>)> {
    if op.0 {
        subscribed(v, op.1, op.2)
    } else {
        unsubscribed(v, op.1, op.2)
    }
}

/// The subscriptions after the calls `ops`, in order, starting from `v`.
pub open spec fn run_subscriptions(v: Seq<(Seq<char>, Seq<u32>)>, ops: Seq<(bool, Seq<char>, u32)>) -> Seq<(Seq<char>, Seq<u32>)>
    decreases ops.len(),
{
    if ops.len() == 0 {
        v
    } else {
        apply_subscription(run_subscriptions(v, ops.drop_last()), ops.last())
    }
}

/// Whether the last call in `ops` for `node` and `shard` was a subscribe
/// (false when there was none).
pub open spec fn last_call_subscribes(ops: Seq<(bool, Seq<char>, u32)>, node: Seq<char>, shard: u32) -> bool
    decreases ops.len(),
{
    if ops.len() == 0 {
        false
    } else if ops.last().1 == node && ops.last().2 == shard {
        ops.last().0
    } else {
        last_call_subscribes(ops.drop_last(), node, shard)
    }
}

/// The subscription view's own well-formedness: no node twice, no shard
/// twice in a node's list.
pub open spec fn subscriptions_wf(v: Seq<(Seq<char>, Seq<u32>)>) -> bool {
    &&& keys_of(v).no_duplicates()
    &&& forall|i: int| 0 <= i < v.len() ==> (#[trigger] v[i]).1.no_duplicates()
}

/// Whether `node` is recorded as subscribed to `shard`.
pub open spec fn is_subscribed(v: Seq<(Seq<char>, Seq<u32>)>, node: Seq<char>, shard: u32) -> bool {
    lookup_spec(v, node) matches Some(s) && s.contains(shard)
}

proof fn lemma_remove_first<T>(set: Seq<T>, x: T, y: T)
    requires
        set.no_duplicates(),
    ensures
        remove_first(set, x).no_duplicates(),
        !remove_first(set, x).contains(x),
        y != x ==> (remove_first(set, x).contains(y) <==> set.contains(y)),
{
    set.index_of_first_ensures(x);
    match set.index_of_first(x) {
        Some(p) => {
            let r = set.remove(p);
            assert forall|a: int, b: int| 0 <= a < r.len() && 0 <= b < r.len() && a != b implies r[a] != r[b] by {
                let oa = if a < p { a } else { a + 1 };
                let ob = if b < p { b } else { b + 1 };
                assert(r[a] == set[oa]);
                assert(r[b] == set[ob]);
            }
            if r.contains(x) {
                let k = choose|k: int| 0 <= k < r.len() && r[k] == x;
                let ok = if k < p { k } else { k + 1 };
                assert(set[ok] == x);
            }
            if y != x {
                if set.contains(y) {
                    let k = choose|k: int| 0 <= k < set.len() && set[k] == y;
                    assert(k != p);
                    let rk = if k < p { k } else { k - 1 };
                    assert(r[rk] == y);
                }
                if r.contains(y) {
                    let k = choose|k: int| 0 <= k < r.len() && r[k] == y;
                    let ok = if k < p { k } else { k + 1 };
                    assert(set[ok] == y);
                }
            }
        },
        None => {},
    }
}

proof fn lemma_push_new<T>(set: Seq<T>, x: T, y: T)
    requires
        set.no_duplicates(),
        !set.contains(x),
    ensures
        set.push(x).no_duplicates(),
        set.push(x).contains(x),
        y != x ==> (set.push(x).contains(y) <==> set.contains(y)),
{
    let r = set.push(x);
    assert(r[set.len() as int] == x);
    assert forall|a: int, b: int| 0 <= a < r.len() && 0 <= b < r.len() && a != b implies r[a] != r[b] by {
        if a < set.len() && b < set.len() {
            assert(r[a] == set[a]);
            assert(r[b] == set[b]);
        } else if a < set.len() {
            assert(r[a] == set[a]);
        } else {
            assert(r[b] == set[b]);
        }
    }
    if y != x && r.contains(y) {
        let k = choose|k: int| 0 <= k < r.len() && r[k] == y;
        assert(set[k] == y);
    }
    if set.contains(y) {
        let k = choose|k: int| 0 <= k < set.len() && set[k] == y;
        assert(r[k] == y);
    }
}

proof fn lemma_lookup_found<K, V>(v: Seq<(K, V)>, k: K)
    requires
        keys_of(v).no_duplicates(),
    ensures
        lookup_spec(v, k) matches Some(x) ==> exists|i: int| 0 <= i < v.len() && #[trigger] v[i] == (k, x),
        forall|i: int| 0 <= i < v.len() && (#[trigger] v[i]).0 == k ==> lookup_spec(v, k) == Some(v[i].1),
{
    keys_of(v).index_of_first_ensures(k);
    match keys_of(v).index_of_first(k) {
        Some(j) => {
            assert(v[j] == (k, v[j].1));
            assert forall|i: int| 0 <= i < v.len() && (#[trigger] v[i]).0 == k implies lookup_spec(v, k) == Some(v[i].1) by {
                assert(keys_of(v)[i] == k);
                assert(keys_of(v)[j] == k);
            }
        },
        None => {
            assert forall|i: int| 0 <= i < v.len() && (#[trigger] v[i]).0 == k implies lookup_spec(v, k) == Some(v[i].1) by {
                assert(keys_of(v)[i] == k);
            }
        },
    }
}

proof fn lemma_subscribers_contains(v: Seq<(Seq<char>, Seq<u32>)>, shard: u32, node: Seq<char>)
    ensures
        subscribers_of(v, shard).contains(node) <==> exists|i: int| 0 <= i < v.len() && (#[trigger] v[i]).0 == node && v[i].1.contains(shard),
    decreases v.len(),
{
    if v.len() > 0 {
        let d = v.drop_last();
        lemma_subscribers_contains(d, shard, node);
        let inner = subscribers_of(d, shard);
        if subscribers_of(v, shard).contains(node) {
            if v.last().1.contains(shard) && v.last().0 == node {
                assert(v[v.len() - 1].0 == node);
            } else {
                let k = choose|k: int| 0 <= k < subscribers_of(v, shard).len() && subscribers_of(v, shard)[k] == node;
                if v.last().1.contains(shard) {
                    if k < inner.len() {
                        assert(inner[k] == node);
                    }
                } else {
                    assert(inner[k] == node);
                }
                let i = choose|i: int| 0 <= i < d.len() && (#[trigger] d[i]).0 == node && d[i].1.contains(shard);
                assert(v[i] == d[i]);
            }
        }
        if exists|i: int| 0 <= i < v.len() && (#[trigger] v[i]).0 == node && v[i].1.contains(shard) {
            let i = choose|i: int| 0 <= i < v.len() && (#[trigger] v[i]).0 == node && v[i].1.contains(shard);
            if i == v.len() - 1 {
                let r = subscribers_of(v, shard);
                assert(r[r.len() - 1] == node);
            } else {
                assert(d[i] == v[i]);
                let k = choose|k: int| 0 <= k < inner.len() && inner[k] == node;
                assert(subscribers_of(v, shard)[k] == node);
            }
        }
    }
}

proof fn lemma_subscribers_distinct(v: Seq<(Seq<char>, Seq<u32>)>, shard: u32)
    requires
        keys_of(v).no_duplicates(),
    ensures
        subscribers_of(v, shard).no_duplicates(),
    decreases v.len(),
{
    if v.len() > 0 {
        let d = v.drop_last();
        assert(keys_of(d) =~= keys_of(v).drop_last());
        lemma_subscribers_distinct(d, shard);
        if v.last().1.contains(shard) {
            let inner = subscribers_of(d, shard);
            let n = v.last().0;
            if inner.contains(n) {
                lemma_subscribers_contains(d, shard, n);
                let i = choose|i: int| 0 <= i < d.len() && (#[trigger] d[i]).0 == n && d[i].1.contains(shard);
                assert(keys_of(v)[i] == n);
                assert(keys_of(v)[v.len() - 1] == n);
            }
            let r = inner.push(n);
            assert forall|a: int, b: int| 0 <= a < r.len() && 0 <= b < r.len() && a != b implies r[a] != r[b] by {
                if a < inner.len() && b < inner.len() {
                    assert(r[a] == inner[a]);
                    assert(r[b] == inner[b]);
                } else if a < inner.len() {
                    assert(r[a] == inner[a]);
                    assert(inner.contains(inner[a]));
                } else {
                    assert(r[b] == inner[b]);
                    assert(inner.contains(inner[b]));
                }
            }
        }
    }
}

proof fn lemma_membership(v: Seq<(Seq<char>, Seq<u32>)>, node: Seq<char>, shard: u32)
    requires
        keys_of(v).no_duplicates(),
    ensures
        subscribers_of(v, shard).contains(node) <==> is_subscribed(v, node, shard),
{
    lemma_subscribers_contains(v, shard, node);
    lemma_lookup_found(v, node);
}

proof fn lemma_insert_entries<K, V>(v: Seq<(K, V)>, k: K, x: V)
    ensures
        forall|j: int| 0 <= j < insert_spec(v, k, x).len() ==> (#[trigger] insert_spec(v, k, x)[j] == (k, x)) || (j < v.len() && insert_spec(v, k, x)[j] == v[j]),
{
    let w = insert_spec(v, k, x);
    keys_of(v).index_of_first_ensures(k);
    match keys_of(v).index_of_first(k) {
        Some(i) => {
            assert(w == v.update(i, (k, x)));
            assert forall|j: int| 0 <= j < w.len() implies (#[trigger] w[j] == (k, x)) || (j < v.len() && w[j] == v[j]) by {
                if j != i {
                    assert(w[j] == v[j]);
                }
            }
        },
        None => {
            assert(w == v.push((k, x)));
            assert forall|j: int| 0 <= j < w.len() implies (#[trigger] w[j] == (k, x)) || (j < v.len() && w[j] == v[j]) by {
                if j < v.len() {
                    assert(w[j] == v[j]);
                }
            }
        },
    }
}

proof fn lemma_apply_keeps_wf(v: Seq<(Seq<char>, Seq<u32>)>, op: (bool, Seq<char>, u32))
    requires
        subscriptions_wf(v),
    ensures
        subscriptions_wf(apply_subscription(v, op)),
{
    lemma_lookup_found(v, op.1);
    let new_set = if op.0 {
        match lookup_spec(v, op.1) {
            Some(s) => if s.contains(op.2) { s } else { s.push(op.2) },
            None => seq![op.2],
        }
    } else {
        match lookup_spec(v, op.1) {
            Some(s) => remove_first(s, op.2),
            None => seq![],
        }
    };
    if op.0 || lookup_spec(v, op.1) is Some {
        assert(new_set.no_duplicates()) by {
            match lookup_spec(v, op.1) {
                Some(s) => {
                    let i = choose|i: int| 0 <= i < v.len() && #[trigger] v[i] == (op.1, s);
                    assert(v[i].1.no_duplicates());
                    if op.0 {
                        if !s.contains(op.2) {
                            lemma_push_new(s, op.2, op.2);
                        }
                    } else {
                        lemma_remove_first(s, op.2, op.2);
                    }
                },
                None => {},
            }
        }
        crate::kv::lemma_insert_distinct(v, op.1, new_set);
        lemma_insert_entries(v, op.1, new_set);
        assert(apply_subscription(v, op) == insert_spec(v, op.1, new_set));
    }
}

proof fn lemma_apply_membership(v: Seq<(Seq<char>, Seq<u32>)>, op: (bool, Seq<char>, u32), node: Seq<char>, shard: u32)
    requires
        subscriptions_wf(v),
    ensures
        is_subscribed(apply_subscription(v, op), node, shard) == if op.1 == node && op.2 == shard {
            op.0
        } else {
            is_subscribed(v, node, shard)
        },
{
    lemma_lookup_found(v, op.1);
    let w = apply_subscription(v, op);
    match lookup_spec(v, op.1) {
        Some(s) => {
            let i = choose|i: int| 0 <= i < v.len() && #[trigger] v[i] == (op.1, s);
            assert(v[i].1.no_duplicates());
            let new_set = if op.0 { if s.contains(op.2) { s } else { s.push(op.2) } } else { remove_first(s, op.2) };
            assert(w == insert_spec(v, op.1, new_set));
            if node == op.1 {
                crate::kv::lemma_lookup_insert_same(v, op.1, new_set);
                if op.0 {
                    if !s.contains(op.2) {
                        lemma_push_new(s, op.2, shard);
                    }
                } else {
                    lemma_remove_first(s, op.2, shard);
                }
            } else {
                crate::kv::lemma_lookup_insert_other(v, op.1, new_set, node);
            }
        },
        None => {
            if op.0 {
                let new_set = seq![op.2];
                if node == op.1 {
                    crate::kv::lemma_lookup_insert_same(v, op.1, new_set);
                    if shard != op.2 {
                        assert(!new_set.contains(shard)) by {
                            if new_set.contains(shard) {
                                let k = choose|k: int| 0 <= k < new_set.len() && new_set[k] == shard;
                            }
                        }
                    } else {
                        assert(new_set[0] == shard);
                    }
                } else {
                    crate::kv::lemma_lookup_insert_other(v, op.1, new_set, node);
                }
            }
        },
    }
}

proof fn lemma_run_subscriptions(ops: Seq<(bool, Seq<char>, u32)>, node: Seq<char>, shard: u32)
    ensures
        subscriptions_wf(run_subscriptions(Seq::empty(), ops)),
        is_subscribed(run_subscriptions(Seq::empty(), ops), node, shard) == last_call_subscribes(ops, node, shard),
    decreases ops.len(),
{
    if ops.len() == 0 {
        let e = Seq::<(Seq<char>, Seq<u32>)>::empty();
        assert(keys_of(e) =~= Seq::<Seq<char>>::empty());
        keys_of(e).index_of_first_ensures(node);
    } else {
        lemma_run_subscriptions(ops.drop_last(), node, shard);
        let v = run_subscriptions(Seq::empty(), ops.drop_last());
        lemma_apply_keeps_wf(v, ops.last());
        lemma_apply_membership(v, ops.last(), node, shard);
    }
}

/// Starting from no subscriptions, after any sequence of subscribe and
/// unsubscribe calls a node is among a shard's subscribers exactly when its
/// last call for that shard was a subscribe, and no subscriber is listed
/// twice.
pub proof fn lemma_subscribers_follow_last_call(ops: Seq<(bool, Seq<char>, u32)>, node: Seq<char>, shard: u32)
    ensures
        subscribers_of(run_subscriptions(Seq::empty(), ops), shard).contains(node) <==> last_call_subscribes(ops, node, shard),
        subscribers_of(run_subscriptions(Seq::empty(), ops), shard).no_duplicates(),
{
    lemma_run_subscriptions(ops, node, shard);
    let v = run_subscriptions(Seq::empty(), ops);
    lemma_membership(v, node, shard);
    lemma_subscribers_distinct(v, shard);
}

} // verus!
