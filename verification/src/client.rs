//! Touch handling of the oracle client: the fingers currently on the glass,
//! the four-finger exit gesture, and the UNDO and CLEAR buttons in the top
//! chrome strip.

use vstd::prelude::*;
use crate::render::W;

verus! {

/// Height of the top chrome strip; the pen is ignored there.
pub const CHROME_H: i32 = 110;
/// Width of each chrome button.
pub const BTN_W: i32 = 180;

/// What a touch press asks of the client.
#[derive(Debug, Clone, Copy, PartialEq, Eq, Structural)]
pub enum TouchOutcome {
    /// Four or more fingers are down: leave the app.
    Exit,
    /// The UNDO button, top left: drop the last stroke.
    Undo,
    /// The CLEAR button, top right: drop every stroke.
    Clear,
    /// Nothing to do.
    Ignore,
}

/// The outcome of a touch press at (`x`, `y`) with `fingers` down afterwards.
pub open spec fn touch_outcome(fingers: nat, pen_down: bool, x: int, y: int) -> TouchOutcome {
    if fingers >= 4 {
        TouchOutcome::Exit
    } else if pen_down || y >= CHROME_H {
        TouchOutcome::Ignore
    } else if x <= 12 + BTN_W {
        TouchOutcome::Undo
    } else if x >= W - 12 - BTN_W {
        TouchOutcome::Clear
    } else {
        TouchOutcome::Ignore
    }
}

/// Records finger `id` as down; the fingers stay a set.
pub fn finger_down(fingers: &mut Vec<i32>, id: i32)
    requires
        old(fingers)@.no_duplicates(),
    ensures
        final(fingers)@ == if old(fingers)@.contains(id) {
            old(fingers)@
        } else {
            old(fingers)@.push(id)
        },
        final(fingers)@.no_duplicates(),
        final(fingers)@.to_set() == old(fingers)@.to_set().insert(id),
{
    broadcast use vstd::seq_lib::group_seq_properties;
    let mut i: usize = 0;
    while i < fingers.len()
        invariant
            i <= fingers@.len(),
            fingers@ == old(fingers)@,
            fingers@.no_duplicates(),
            forall|k: int| 0 <= k < i ==> fingers@[k] != id,
        decreases fingers@.len() - i,
    {
        if fingers[i] == id {
            proof {
                assert(fingers@.to_set().insert(id) =~= fingers@.to_set());
            }
            return;
        }
        i = i + 1;
    }
    let ghost before = fingers@;
    fingers.push(id);
    proof {
        assert(!before.contains(id));
        assert(fingers@.to_set() =~= before.to_set().insert(id)) by {
            assert forall|v: i32| fingers@.to_set().contains(v) <==> before.to_set().insert(id).contains(v) by {
                if v != id && fingers@.contains(v) {
                    let k = choose|k: int| 0 <= k < fingers@.len() && fingers@[k] == v;
                    assert(before[k] == v);
                }
                if before.contains(v) {
                    let k = choose|k: int| 0 <= k < before.len() && before[k] == v;
                    assert(fingers@[k] == v);
                }
                if v == id {
                    assert(fingers@[before.len() as int] == id);
                }
            }
        }
    }
}

/// Records finger `id` as lifted; the fingers stay a set.
pub fn finger_up(fingers: &mut Vec<i32>, id: i32)
    requires
        old(fingers)@.no_duplicates(),
    ensures
        !old(fingers)@.contains(id) ==> final(fingers)@ == old(fingers)@,
        old(fingers)@.contains(id) ==> exists|i: int|
            0 <= i < old(fingers)@.len() && old(fingers)@[i] == id && final(fingers)@ == old(fingers)@.remove(i),
        final(fingers)@.no_duplicates(),
        final(fingers)@.to_set() == old(fingers)@.to_set().remove(id),
{
    broadcast use vstd::seq_lib::group_seq_properties;
    let mut i: usize = 0;
    while i < fingers.len()
        invariant
            i <= fingers@.len(),
            fingers@ == old(fingers)@,
            fingers@.no_duplicates(),
            forall|k: int| 0 <= k < i ==> fingers@[k] != id,
        decreases fingers@.len() - i,
    {
        if fingers[i] == id {
            let ghost before = fingers@;
            fingers.remove(i);
            proof {
                assert(fingers@ =~= before.remove(i as int));
                assert(fingers@.to_set() =~= before.to_set().remove(id)) by {
                    assert forall|v: i32| fingers@.to_set().contains(v) <==> before.to_set().remove(id).contains(v) by {
                        if fingers@.contains(v) {
                            let k = choose|k: int| 0 <= k < fingers@.len() && fingers@[k] == v;
                            if k < i {
                                assert(before[k] == v);
                            } else {
                                assert(before[k + 1] == v);
                                assert(k + 1 != i);
                            }
                        }
                        if v != id && before.contains(v) {
                            let k = choose|k: int| 0 <= k < before.len() && before[k] == v;
                            if k < i {
                                assert(fingers@[k] == v);
                            } else {
                                assert(k != i);
                                assert(fingers@[k - 1] == v);
                            }
                        }
                    }
                }
            }
            return;
        }
        i = i + 1;
    }
    proof {
        assert(!fingers@.contains(id));
        assert(fingers@.to_set().remove(id) =~= fingers@.to_set());
    }
}

/// A touch press of finger `id` at (`x`, `y`): the finger is recorded as
/// down, then four fingers exit, a press while the pen is down or below the
/// chrome strip does nothing, and a press on the UNDO or CLEAR button asks
/// for it.
pub fn touch_press(fingers: &mut Vec<i32>, id: i32, pen_down: bool, x: i32, y: i32) -> (outcome: TouchOutcome)
    requires
        old(fingers)@.no_duplicates(),
    ensures
        final(fingers)@ == if old(fingers)@.contains(id) {
            old(fingers)@
        } else {
            old(fingers)@.push(id)
        },
        final(fingers)@.no_duplicates(),
        final(fingers)@.to_set() == old(fingers)@.to_set().insert(id),
        outcome == touch_outcome(final(fingers)@.to_set().len(), pen_down, x as int, y as int),
{
    finger_down(fingers, id);
    proof {
        fingers@.unique_seq_to_set();
    }
    if fingers.len() >= 4 {
        TouchOutcome::Exit
    } else if pen_down || y >= CHROME_H {
        TouchOutcome::Ignore
    } else if x <= 12 + BTN_W {
        TouchOutcome::Undo
    } else if x >= W - 12 - BTN_W {
        TouchOutcome::Clear
    } else {
        TouchOutcome::Ignore
    }
}

} // verus!
