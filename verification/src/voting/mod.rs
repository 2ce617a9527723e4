pub mod fullnode_vote;
