//! Branch navigation in a thread's message tree: moving to a neighbouring
//! sibling, descending to a leaf along the remembered branches, and the
//! branch info shown with each message.

use vstd::prelude::*;
use crate::table::Table;
use crate::agent_loop::{first_text, first_text_exec};
use crate::text::{chars_of, push_str, slice_chars, str_eq, string_of, trim, trim_chars};
use crate::types::{BranchInfo, ContentBlock, ToolCallStatus};

verus! {

/// Index of the first id equal to `at`.
pub open spec fn position_of(ids: Seq<Seq<char>>, at: Seq<char>) -> Option<int>
    decreases ids.len(),
{
    if ids.len() == 0 {
        None
    } else {
        match position_of(ids.drop_last(), at) {
            Some(p) => Some(p),
            None => if ids.last() == at {
                Some(ids.len() - 1)
            } else {
                None
            },
        }
    }
}

proof fn lemma_position_prefix(ids: Seq<Seq<char>>, at: Seq<char>, k: int)
    requires
        0 <= k <= ids.len(),
        position_of(ids.take(k), at) is Some,
    ensures
        position_of(ids, at) == position_of(ids.take(k), at),
    decreases ids.len() - k,
{
    if k < ids.len() {
        assert(ids.take(k + 1).drop_last() =~= ids.take(k));
        lemma_position_prefix(ids, at, k + 1);
    } else {
        assert(ids.take(k) =~= ids);
    }
}

proof fn lemma_position_none(ids: Seq<Seq<char>>, at: Seq<char>)
    requires
        forall|j: int| 0 <= j < ids.len() ==> ids[j] != at,
    ensures
        position_of(ids, at) is None,
    decreases ids.len(),
{
    if ids.len() > 0 {
        lemma_position_none(ids.drop_last(), at);
    }
}

proof fn lemma_position_props(ids: Seq<Seq<char>>, at: Seq<char>)
    ensures
        position_of(ids, at) matches Some(p) ==> (0 <= p < ids.len() && ids[p] == at && forall|j: int|
            0 <= j < p ==> ids[j] != at),
        position_of(ids, at) is None ==> forall|j: int| 0 <= j < ids.len() ==> ids[j] != at,
    decreases ids.len(),
{
    if ids.len() > 0 {
        let d = ids.drop_last();
        lemma_position_props(d, at);
        assert(forall|j: int| 0 <= j < d.len() ==> d[j] == ids[j]);
    }
}

/// Where a `prev`/`next` step among siblings goes: nowhere when there is
/// no other sibling or the step would leave the ends; an error when the
/// message is not among the siblings or the direction is unknown.
pub open spec fn step_outcome(ids: Seq<Seq<char>>, at: Seq<char>, direction: Seq<char>) -> Result<
    Option<int>,
    Seq<char>,
> {
    if ids.len() < 2 {
        Ok(None)
    } else {
        match position_of(ids, at) {
            None => Err("message not among its siblings"@),
            Some(pos) => {
                let new_pos = if direction == "prev"@ {
                    Some(if pos == 0 {
                        0
                    } else {
                        pos - 1
                    })
                } else if direction == "next"@ {
                    Some(if pos + 1 < ids.len() - 1 {
                        pos + 1
                    } else {
                        ids.len() - 1
                    })
                } else {
                    None
                };
                match new_pos {
                    None => Err("invalid direction: "@ + direction),
                    Some(p) => if p == pos {
                        Ok(None)
                    } else {
                        Ok(Some(p))
                    },
                }
            },
        }
    }
}

pub open spec fn id_views(ids: Seq<String>) -> Seq<Seq<char>> {
    ids.map_values(|s: String| s@)
}

fn first_position(ids: &Vec<String>, at: &str) -> (r: Option<usize>)
    ensures
        match position_of(id_views(ids@), at@) {
            Some(p) => r matches Some(q) && q as int == p,
            None => r is None,
        },
        r matches Some(p) ==> p < ids@.len(),
{
    let ghost v = id_views(ids@);
    let mut i: usize = 0;
    while i < ids.len()
        invariant
            i <= ids@.len(),
            v == id_views(ids@),
            forall|j: int| 0 <= j < i ==> v[j] != at@,
        decreases ids@.len() - i,
    {
        if str_eq(ids[i].as_str(), at) {
            proof {
                lemma_position_none(v.take(i as int), at@);
                assert(v.take(i + 1).drop_last() =~= v.take(i as int));
                lemma_position_prefix(v, at@, i + 1);
            }
            return Some(i);
        }
        i = i + 1;
    }
    proof {
        lemma_position_none(v, at@);
    }
    None
}

/// Decides a `prev`/`next` step from the message `at` among its siblings
/// (ids in branch order): `Ok(Some(i))` moves to sibling `i`, `Ok(None)`
/// keeps the current branch.
pub fn sibling_step(sibling_ids: &Vec<String>, at: &str, direction: &str) -> (r: Result<
    Option<usize>,
    String,
>)
    ensures
        match r {
            Ok(Some(i)) => step_outcome(id_views(sibling_ids@), at@, direction@) == Ok::<
                Option<int>,
                Seq<char>,
            >(Some(i as int)),
            Ok(None) => step_outcome(id_views(sibling_ids@), at@, direction@) == Ok::<
                Option<int>,
                Seq<char>,
            >(None),
            Err(e) => step_outcome(id_views(sibling_ids@), at@, direction@) == Err::<
                Option<int>,
                Seq<char>,
            >(e@),
        },
{
    proof {
        reveal_strlit("prev");
        reveal_strlit("next");
    }
    let n = sibling_ids.len();
    if n < 2 {
        return Ok(None);
    }
    let pos = match first_position(sibling_ids, at) {
        Some(p) => p,
        None => return Err(String::from_str("message not among its siblings")),
    };
    let new_pos = if str_eq(direction, "prev") {
        if pos == 0 {
            0
        } else {
            pos - 1
        }
    } else if str_eq(direction, "next") {
        if pos + 1 < n - 1 {
            pos + 1
        } else {
            n - 1
        }
    } else {
        let mut e = String::from_str("invalid direction: ");
        push_str(&mut e, direction);
        return Err(e);
    };
    if new_pos == pos {
        Ok(None)
    } else {
        Ok(Some(new_pos))
    }
}

/// Which child to descend into: the remembered one when it is among the
/// children, otherwise the newest fork (the last child).
pub open spec fn descend_index(ids: Seq<Seq<char>>, recalled: Option<Seq<char>>) -> int {
    match recalled {
        Some(id) => match position_of(ids, id) {
            Some(p) => p,
            None => ids.len() - 1,
        },
        None => ids.len() - 1,
    }
}

/// Picks the child to descend into on the way to a leaf.
pub fn descend_choice(child_ids: &Vec<String>, recalled: Option<&str>) -> (i: usize)
    requires
        child_ids@.len() > 0,
    ensures
        i as int == descend_index(
            id_views(child_ids@),
            match recalled {
                Some(r) => Some(r@),
                None => None,
            },
        ),
        i < child_ids@.len(),
{
    match recalled {
        Some(id) => match first_position(child_ids, id) {
            Some(p) => p,
            None => child_ids.len() - 1,
        },
        None => child_ids.len() - 1,
    }
}

/// Remembered child under each (thread, parent), so that navigation
/// returns to the sub-branch the user came from.
pub type BranchMemory = Table<(String, Option<String>), String>;

/// Remembers the child shown under a parent (`None` for the root).
pub fn remember_active_child(memory: &mut BranchMemory, thread_id: &str, parent_id: Option<&str>, child_id: &str)
    ensures
        exists|c: String|
            c@ == child_id@ && final(memory)@ == old(memory)@.insert(
                (
                    thread_id@,
                    match parent_id {
                        Some(p) => Some(p@),
                        None => None,
                    },
                ),
                c,
            ),
{
    let parent = match parent_id {
        Some(p) => Some(String::from_str(p)),
        None => None,
    };
    let c = String::from_str(child_id);
    let ghost cv = c;
    memory.insert((String::from_str(thread_id), parent), c);
    assert(cv@ == child_id@);
}

/// The child remembered under a parent.
pub fn recalled_active_child(memory: &BranchMemory, thread_id: &str, parent_id: Option<&str>) -> (r: Option<
    String,
>)
    ensures
        ({
            let k = (
                thread_id@,
                match parent_id {
                    Some(p) => Some(p@),
                    None => None,
                },
            );
            match r {
                Some(c) => memory@.contains_key(k) && memory@[k]@ == c@,
                None => !memory@.contains_key(k),
            }
        }),
{
    let parent = match parent_id {
        Some(p) => Some(String::from_str(p)),
        None => None,
    };
    let key = (String::from_str(thread_id), parent);
    match memory.get(&key) {
        Some(c) => Some(String::from_str(c.as_str())),
        None => None,
    }
}

/// The branch info of a message: its 1-based position among its siblings
/// and their number.
pub fn branch_info(branch_index: i64, sibling_count: usize) -> (b: BranchInfo)
    requires
        branch_index < i64::MAX,
        sibling_count <= i64::MAX,
    ensures
        b.index == branch_index + 1,
        b.count == sibling_count,
{
    BranchInfo { index: branch_index + 1, count: sibling_count as i64 }
}

/// Stepping `next` and then `prev` among distinct siblings comes back to
/// where it started.
pub proof fn lemma_next_then_prev(ids: Seq<Seq<char>>, at: Seq<char>, p: int)
    requires
        forall|a: int, b: int| 0 <= a < b < ids.len() ==> ids[a] != ids[b],
        step_outcome(ids, at, "next"@) == Ok::<Option<int>, Seq<char>>(Some(p)),
    ensures
        0 <= p < ids.len(),
        step_outcome(ids, ids[p], "prev"@) == Ok::<Option<int>, Seq<char>>(position_of(ids, at)),
{
    reveal_strlit("next");
    reveal_strlit("prev");
    lemma_position_props(ids, at);
    assert("next"@ != "prev"@) by {
        assert("next"@[0] != "prev"@[0]);
    }
    assert(ids.len() >= 2);
    assert(position_of(ids, at) is Some);
    let pos = position_of(ids, at).unwrap();
    assert(0 <= pos < ids.len());
    assert(p == pos + 1);
    lemma_position_props(ids, ids[p]);
    assert(position_of(ids, ids[p]) == Some(p)) by {
        let q = position_of(ids, ids[p]).unwrap();
        if q < p {
            assert(ids[q] != ids[p]);
        }
    }
}

/// A tool call left waiting (streaming or pending approval).
pub open spec fn is_stale(b: ContentBlock) -> bool {
    b matches ContentBlock::ToolCall { status, .. } && (status == ToolCallStatus::Streaming || status
        == ToolCallStatus::PendingApproval)
}

/// A block as it reads once no run is active: a tool call left waiting is
/// cancelled; everything else stays as it is.
pub open spec fn reconciled(b: ContentBlock) -> ContentBlock {
    match b {
        ContentBlock::ToolCall { id, name, args, status, result, warnings } => if status
            == ToolCallStatus::Streaming || status == ToolCallStatus::PendingApproval {
            ContentBlock::ToolCall { id, name, args, status: ToolCallStatus::Cancelled, result, warnings }
        } else {
            ContentBlock::ToolCall { id, name, args, status, result, warnings }
        },
        _ => b,
    }
}

/// Reconciles a message of a run that is no longer active: tool calls
/// left streaming or waiting for approval become cancelled. Returns
/// whether anything changed (the message then has to be stored again).
pub fn reconcile_stale_calls(content: &mut Vec<ContentBlock>) -> (changed: bool)
    ensures
        final(content)@ == old(content)@.map_values(|b: ContentBlock| reconciled(b)),
        changed == exists|i: int| 0 <= i < old(content)@.len() && is_stale(#[trigger] old(content)@[i]),
{
    let ghost orig = content@;
    let mut rest: Vec<ContentBlock> = Vec::new();
    std::mem::swap(&mut rest, content);
    let n = rest.len();
    assert(orig.len() == n);
    let mut out: Vec<ContentBlock> = Vec::new();
    let mut changed = false;
    let mut k: usize = 0;
    while rest.len() > 0
        invariant
            k + rest@.len() == orig.len(),
            orig.len() <= usize::MAX,
            rest@ == orig.subrange(k as int, orig.len() as int),
            out@ == orig.take(k as int).map_values(|b: ContentBlock| reconciled(b)),
            changed == exists|i: int| 0 <= i < k && is_stale(#[trigger] orig[i]),
        decreases rest@.len(),
    {
        let b = rest.remove(0);
        proof {
            assert(b == orig[k as int]);
        }
        let nb = match b {
            ContentBlock::ToolCall { id, name, args, status, result, warnings } => {
                if status == ToolCallStatus::Streaming || status == ToolCallStatus::PendingApproval {
                    changed = true;
                    ContentBlock::ToolCall { id, name, args, status: ToolCallStatus::Cancelled, result, warnings }
                } else {
                    ContentBlock::ToolCall { id, name, args, status, result, warnings }
                }
            },
            other => other,
        };
        out.push(nb);
        proof {
            assert(orig.take(k + 1) =~= orig.take(k as int).push(orig[k as int]));
            assert(out@ =~= orig.take(k + 1).map_values(|b: ContentBlock| reconciled(b)));
            assert(rest@ =~= orig.subrange(k + 1, orig.len() as int));
            if is_stale(orig[k as int]) {
                assert(exists|i: int| 0 <= i < k + 1 && is_stale(#[trigger] orig[i]));
            }
        }
        k = k + 1;
    }
    proof {
        assert(orig.take(orig.len() as int) =~= orig);
    }
    *content = out;
    changed
}

/// Reconciling leaves no tool call waiting, and reconciling again changes
/// nothing.
pub proof fn lemma_reconcile_settles(b: ContentBlock)
    ensures
        !is_stale(reconciled(b)),
        reconciled(reconciled(b)) == reconciled(b),
        !is_stale(b) ==> reconciled(b) == b,
{
}

/// A thread without a title but with messages is listed with a preview.
pub fn needs_preview(title: &str, message_count: i64) -> (b: bool)
    ensures
        b == (title@.len() == 0 && message_count > 0),
{
    !crate::text::is_nonempty(title) && message_count > 0
}

/// The preview of a thread: the first text of its first user message,
/// trimmed, cut to 30 characters, when there is any.
pub open spec fn preview_of(blocks: Seq<ContentBlock>) -> Option<Seq<char>> {
    match first_text(blocks) {
        Some(t) => if trim(t).len() > 0 {
            Some(
                if trim(t).len() <= 30 {
                    trim(t)
                } else {
                    trim(t).take(30)
                },
            )
        } else {
            None
        },
        None => None,
    }
}

/// Computes a thread's preview from its first user message's content.
pub fn thread_preview(first_user_content: &Vec<ContentBlock>) -> (r: Option<String>)
    ensures
        match r {
            Some(p) => preview_of(first_user_content@) == Some(p@),
            None => preview_of(first_user_content@) is None,
        },
{
    let t = match first_text_exec(first_user_content) {
        Some(t) => t,
        None => return None,
    };
    let c = trim_chars(&chars_of(t.as_str()));
    if c.len() == 0 {
        return None;
    }
    if c.len() <= 30 {
        Some(string_of(c.as_slice()))
    } else {
        let head = slice_chars(&c, 0, 30);
        proof {
            assert(c@.subrange(0, 30) =~= c@.take(30));
        }
        Some(string_of(head.as_slice()))
    }
}

/// Editing history forks a new branch from a user message, and only while
/// no run is active in the thread.
pub fn check_edit_message(role: &str, run_active: bool) -> (r: Result<(), String>)
    ensures
        match r {
            Ok(()) => role@ == "user"@ && !run_active,
            Err(e) => if role@ != "user"@ {
                e@ == "Only user messages can be edited"@
            } else {
                run_active && e@ == "A run is active; cancel it before editing history"@
            },
        },
{
    if !str_eq(role, "user") {
        return Err(String::from_str("Only user messages can be edited"));
    }
    if run_active {
        return Err(String::from_str("A run is active; cancel it before editing history"));
    }
    Ok(())
}

} // verus!
