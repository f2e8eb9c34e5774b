//! Closing the active buffer.

use vstd::prelude::*;

use crate::command::{CommandQueue, lemma_queue_has_scope};
use crate::state::text_buffer::TextBuffer;
use crate::text::{push_str, to_owned_string};

verus! {

/// The path of a buffer as text: empty when it has none.
pub open spec fn path_text(buffer: TextBuffer) -> Seq<char> {
    match buffer.path {
        Some(p) => p@,
        None => Seq::<char>::empty(),
    }
}

/// The first step of closing the active buffer `buffer`: refused without
/// one, and with unsaved changes unless `force`; otherwise announces
/// `buffer-closed` with the buffer's path and queues the second step,
/// `buffer-close__part2` with the path.
pub fn buffer_close(buffer: Option<&TextBuffer>, force: bool, queue: &mut CommandQueue) -> (r: Result<(), String>)
    requires
        old(queue).wf(),
        old(queue).scopes().last() < u32::MAX - 1,
    ensures
        final(queue).wf(),
        buffer.is_none() ==> (r matches Err(e) && e@ == "no currently open buffer"@ && *final(queue) == *old(queue)),
        buffer matches Some(b) && b.dirty && !force ==> (r matches Err(e) && e@ == "there are unsaved changes"@
            && *final(queue) == *old(queue)),
        buffer matches Some(b) ==> (!b.dirty || force ==> {
            let last = old(queue).scopes().last() as int;
            &&& r is Ok
            &&& final(queue).commands() == old(queue).commands().insert(
                last,
                "buffer-closed"@ + seq![' '] + path_text(*b),
            ).insert(last + 1, "buffer-close__part2 "@ + path_text(*b))
            &&& final(queue).log() == old(queue).log()
        }),
{
    let b = match buffer {
        Some(b) => b,
        None => {
            proof {
                reveal_strlit("no currently open buffer");
            }
            return Err(to_owned_string("no currently open buffer"));
        },
    };
    if b.is_dirty() && !force {
        proof {
            reveal_strlit("there are unsaved changes");
        }
        return Err(to_owned_string("there are unsaved changes"));
    }
    let path = b.path_str();
    proof {
        lemma_queue_has_scope(*queue);
        reveal_strlit("buffer-closed");
        reveal_strlit("buffer-close__part2 ");
    }
    queue.emit(to_owned_string("buffer-closed"), path);
    let mut part2 = to_owned_string("buffer-close__part2 ");
    push_str(&mut part2, path);
    proof {
        lemma_queue_has_scope(*queue);
    }
    queue.push(part2);
    Ok(())
}

} // verus!
