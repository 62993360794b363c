use vstd::prelude::*;
use crate::codec::{dec_tasks, decode_tasks, enc_tasks, encode_tasks};
use crate::store::{pruned, TaskStore};
use crate::task::TaskView;

verus! {

/// Prunes the store and returns the payload to persist: completed tasks are
/// discarded on the save path, and the remainder is encoded in order.
pub fn save(store: &mut TaskStore) -> (r: String)
    ensures
        final(store)@ == pruned(old(store)@),
        r@ == enc_tasks(final(store)@),
{
    store.prune_completed();
    encode_tasks(store.list())
}

/// Rebuilds a store from a previously saved payload; an absent or corrupt
/// payload yields an empty store, never an error.
pub fn load(payload: Option<&str>) -> (s: TaskStore)
    ensures
        s@ == match payload {
            Some(p) => match dec_tasks(p@) {
                Some(ts) => ts,
                None => Seq::<TaskView>::empty(),
            },
            None => Seq::<TaskView>::empty(),
        },
{
    match payload {
        Some(p) => match decode_tasks(p) {
            Some(ts) => TaskStore::from_tasks(ts),
            None => TaskStore::new(),
        },
        None => TaskStore::new(),
    }
}

/// Saving any task sequence and loading the result back yields exactly the
/// sequence with its completed tasks removed.
pub proof fn lemma_save_load_round_trip(s: Seq<TaskView>)
    ensures
        dec_tasks(enc_tasks(pruned(s))) == Some(pruned(s)),
{
    crate::codec::lemma_dec_enc_tasks(pruned(s));
}

} // verus!
