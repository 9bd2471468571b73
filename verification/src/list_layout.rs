//! Row layout of a titled item list that shows at most a given number of
//! items and then a "+N more" line.
use vstd::prelude::*;

verus! {

/// How a flagged list is drawn.
#[derive(Debug, Clone, Copy, PartialEq, Eq)]
pub struct ListLayout {
    /// Whether anything is drawn at all (title included).
    pub visible: bool,
    /// Number of leading items drawn as rows.
    pub shown: usize,
    /// Number of items left out, reported on a "+N more" row when positive.
    pub more: usize,
}

/// Layout of a list of `len` items drawn with at most `max_items` rows: an
/// empty list draws nothing; otherwise the first `min(len, max_items)` items
/// are drawn and the rest counted.
pub fn flagged_list_layout(len: usize, max_items: usize) -> (r: ListLayout)
    ensures
        r.visible == (len > 0),
        r.shown == if len > 0 {
            if len < max_items {
                len
            } else {
                max_items
            }
        } else {
            0
        },
        r.more == if len > 0 && len > max_items {
            len - max_items
        } else {
            0
        },
        r.shown + r.more == len,
{
    if len == 0 {
        return ListLayout { visible: false, shown: 0, more: 0 };
    }
    let shown = if len < max_items {
        len
    } else {
        max_items
    };
    let more = len.saturating_sub(max_items);
    ListLayout { visible: true, shown, more }
}

} // verus!
