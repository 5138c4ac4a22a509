use vstd::prelude::*;

verus! {

/// The index the source-port dropdown shows after its list was refreshed:
/// `-1` for an empty list, `0` for no selection, the last entry when the
/// selection fell off the end of the list (say, the selected port was
/// removed), and the previous selection otherwise.
pub open spec fn spec_port_index_after_refresh(len: nat, current: int) -> int {
    if len == 0 {
        -1
    } else if current < 0 {
        0
    } else if current >= len {
        len - 1
    } else {
        current
    }
}

/// The index the IWAD dropdown shows after its list was refreshed: `-1` for
/// an empty list, `0` when the previous selection no longer points into the
/// list, and the previous selection otherwise.
pub open spec fn spec_iwad_index_after_refresh(len: nat, current: int) -> int {
    if len == 0 {
        -1
    } else if current < 0 || current >= len {
        0
    } else {
        current
    }
}

/// Decides which entry the source-port dropdown selects once its list holds
/// `len` entries, given the index it selected before. An index out of range
/// is clamped into the list. The list is short enough for its indices to be
/// `i32`, as the dropdown's are.
pub fn port_index_after_refresh(len: usize, current: i32) -> (index: i32)
    requires
        len <= 0x8000_0000,
    ensures
        index == spec_port_index_after_refresh(len as nat, current as int),
{
    if len == 0 {
        -1
    } else if current < 0 {
        0
    } else if current as usize >= len {
        (len - 1) as i32
    } else {
        current
    }
}

/// Decides which entry the IWAD dropdown selects once its list holds `len`
/// entries, given the index it selected before.
pub fn iwad_index_after_refresh(len: usize, current: i32) -> (index: i32)
    ensures
        index == spec_iwad_index_after_refresh(len as nat, current as int),
{
    if len == 0 {
        -1
    } else if current < 0 || current as usize >= len {
        0
    } else {
        current
    }
}

/// After a refresh each dropdown points into its list, or is `-1` when the
/// list is empty; a selection that still points into the list is kept, and a
/// source-port selection past the end moves to the last port.
pub proof fn lemma_refresh_selects_an_entry(len: nat, current: int)
    ensures
        len == 0 ==> spec_port_index_after_refresh(len, current) == -1,
        len == 0 ==> spec_iwad_index_after_refresh(len, current) == -1,
        len > 0 ==> 0 <= spec_port_index_after_refresh(len, current) < len,
        len > 0 ==> 0 <= spec_iwad_index_after_refresh(len, current) < len,
        0 <= current < len ==> spec_port_index_after_refresh(len, current) == current,
        0 <= current < len ==> spec_iwad_index_after_refresh(len, current) == current,
        len > 0 && current >= len ==> spec_port_index_after_refresh(len, current) == len - 1,
{
}

} // verus!
