//! The governance engine of a small republic: a threshold-signed chain of
//! committed blocks, its verification, and the state a holder folds from it.
#![allow(unused_imports)]

pub mod canonical;
pub mod card_laws;
pub mod catchup_laws;
pub mod chain_laws;
pub mod chat;
pub mod chat_commands;
pub mod chat_errors;
pub mod chat_laws;
pub mod chat_model;
pub mod checkpoint;
pub mod compaction;
pub mod compaction_laws;
pub mod config_store;
pub mod cut_laws;
pub mod export_laws;
pub mod fault;
pub mod fold;
pub mod fork_laws;
pub mod governance;
pub mod history;
pub mod holder_laws;
pub mod identity;
pub mod list_laws;
pub mod membership;
pub mod model;
pub mod own_chain;
pub mod patch_laws;
pub mod patches;
pub mod payload;
pub mod peer_laws;
pub mod peers;
pub mod post_laws;
pub mod projection;
pub mod quiet_laws;
pub mod read_chain;
pub mod read_laws;
pub mod reading_laws;
pub mod recovery;
pub mod rekey;
pub mod relays;
pub mod return_laws;
pub mod seal_laws;
pub mod sealing;
pub mod serving;
pub mod settle_laws;
pub mod signers;
pub mod silence_laws;
pub mod standing_laws;
pub mod state;
pub mod state_laws;
pub mod summary_laws;
pub mod sync;
pub mod sync_laws;
pub mod table;
pub mod telling_laws;
pub mod text;
pub mod verify_laws;
pub mod vote_laws;
pub mod votes;
pub mod walk;
pub mod wiki_base;
pub mod wiki_export;
pub mod wiki_fold_laws;
pub mod wiki_tree;

use vstd::prelude::*;

verus! {

} // verus!
