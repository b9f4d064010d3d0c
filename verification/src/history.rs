//! Moving through the history of entered lines.
use vstd::prelude::*;
use crate::repl::{key_step, well_formed, Key, ReplView};
use crate::laws::plain;

verus! {

/// The editor after `k` presses of Up.
pub open spec fn ups(v: ReplView, q: Seq<(Seq<char>, int)>, k: nat) -> ReplView
    decreases k,
{
    if k == 0 {
        v
    } else {
        key_step(ups(v, q, (k - 1) as nat), plain(Key::Up), q).0
    }
}

proof fn lemma_ups(v: ReplView, q: Seq<(Seq<char>, int)>, k: nat)
    requires
        well_formed(v),
        v.history.len() > 0,
        v.history_index == v.history.len(),
        1 <= k <= v.history.len(),
    ensures
        ({
            let w = ups(v, q, k);
            &&& w.buffer == v.history[v.history.len() - k]
            &&& w.cursor == w.buffer.len()
            &&& w.history == v.history
            &&& w.history_index == v.history.len() - k
            &&& w.temp_buffer == v.buffer
        }),
    decreases k,
{
    if k > 1 {
        lemma_ups(v, q, (k - 1) as nat);
        let prev = ups(v, q, (k - 1) as nat);
        assert(prev.history_index > 0 && prev.history_index < prev.history.len());
        assert(ups(v, q, k) == key_step(prev, plain(Key::Up), q).0);
    } else {
        assert(ups(v, q, 0) == v);
        assert(ups(v, q, 1) == key_step(v, plain(Key::Up), q).0);
    }
}

/// Going up the history from the line being typed shows the entries from
/// the newest to the oldest; one press more brings the typed line back,
/// with the cursor at its end.
pub proof fn law_history_loops(v: ReplView, q: Seq<(Seq<char>, int)>)
    requires
        well_formed(v),
        v.history.len() > 0,
        v.history_index == v.history.len(),
    ensures
        forall|k: nat| 1 <= k <= v.history.len() ==> (#[trigger] ups(v, q, k)).buffer == v.history[v.history.len() - k],
        ({
            let w = ups(v, q, (v.history.len() + 1) as nat);
            &&& w.buffer == v.buffer
            &&& w.cursor == v.buffer.len()
            &&& w.history == v.history
            &&& w.history_index == v.history.len()
        }),
{
    assert forall|k: nat| 1 <= k <= v.history.len() implies (#[trigger] ups(v, q, k)).buffer == v.history[v.history.len() - k] by {
        lemma_ups(v, q, k);
    }
    let n = v.history.len() as nat;
    lemma_ups(v, q, n);
    let u = ups(v, q, n);
    assert(u.history_index == 0);
    assert(ups(v, q, (n + 1) as nat) == key_step(u, plain(Key::Up), q).0);
}

} // verus!
