use vstd::prelude::*;

verus! {

/// `a + b`, stopping at `usize::MAX`.
pub open spec fn spec_sat_add_usize(a: usize, b: usize) -> int {
    if a + b > usize::MAX { usize::MAX as int } else { a + b }
}

/// The next rolling read-ahead window: none once the cursor has reached the end or while
/// more than `low_water` advised bytes remain ahead of it; otherwise `(offset, len, end)`,
/// starting where the advice stops (or at the cursor, if later) and reaching `horizon`
/// bytes further, clamped to the total.
pub open spec fn spec_next_read_ahead_range(
    cursor: usize,
    advised_until: usize,
    total: usize,
    horizon: usize,
    low_water: usize,
) -> Option<(usize, usize, usize)> {
    let remaining = if advised_until > cursor { advised_until - cursor } else { 0 };
    let clamped_advice = if advised_until < total { advised_until } else { total };
    let offset = if cursor > clamped_advice { cursor } else { clamped_advice };
    let reach = spec_sat_add_usize(offset, horizon);
    let end = if reach < total { reach } else { total as int };
    if cursor >= total || remaining > low_water || offset >= end {
        None
    } else {
        Some((offset, (end - offset) as usize, end as usize))
    }
}

pub fn next_read_ahead_range(
    cursor: usize,
    advised_until: usize,
    total: usize,
    horizon: usize,
    low_water: usize,
) -> (r: Option<(usize, usize, usize)>)
    ensures
        r == spec_next_read_ahead_range(cursor, advised_until, total, horizon, low_water),
{
    if cursor >= total {
        return None;
    }
    let remaining_advised = advised_until.saturating_sub(cursor);
    if remaining_advised > low_water {
        return None;
    }
    let clamped = if advised_until < total { advised_until } else { total };
    let offset = if cursor > clamped { cursor } else { clamped };
    let reach = offset.saturating_add(horizon);
    let end = if reach < total { reach } else { total };
    if offset < end {
        Some((offset, end - offset, end))
    } else {
        None
    }
}

/// The part of a mapping of `mapped_len` bytes that a read-ahead of `len` bytes at `offset`
/// covers, as `(offset, len)`: cut at the end of the mapping, and none when that leaves
/// nothing.
pub fn read_ahead_window(offset: usize, len: usize, mapped_len: usize) -> (r: Option<(usize, usize)>)
    ensures
        ({
            let reach = spec_sat_add_usize(offset, len);
            let end = if reach < mapped_len { reach } else { mapped_len as int };
            if offset < end {
                r == Some((offset, (end - offset) as usize))
            } else {
                r is None
            }
        }),
{
    let reach = offset.saturating_add(len);
    let end = if reach < mapped_len { reach } else { mapped_len };
    if offset < end {
        Some((offset, end - offset))
    } else {
        None
    }
}

} // verus!
