//! What holds of driving nodes.

use crate::binary64::{is_less, lemma_size_positive, magnitude_of, Bits, ZERO};
use crate::connectome::advance::{advanced, StepNumbers};
use crate::connectome::{is_stimulus, pairs_len, stimulated, State, DRIVE_FLOOR};
use vstd::prelude::*;

verus! {

/// Stimulating by two lists in turn is stimulating by the first and then the rest.
pub proof fn law_stimuli_in_turn(s: State, indices: Seq<i32>, amplitudes: Seq<Bits>, k: nat, m: nat)
    requires
        k + m <= indices.len(),
        k + m <= amplitudes.len(),
    ensures
        stimulated(s, indices, amplitudes, k + m) == stimulated(
            stimulated(s, indices, amplitudes, k),
            indices.skip(k as int),
            amplitudes.skip(k as int),
            m,
        ),
    decreases m,
{
    if m > 0 {
        law_stimuli_in_turn(s, indices, amplitudes, k, (m - 1) as nat);
        assert(indices.skip(k as int)[m - 1] == indices[k + m - 1]);
        assert(amplitudes.skip(k as int)[m - 1] == amplitudes[k + m - 1]);
    }
}

/// Stimulating touches the drives and their register only.
pub proof fn law_stimuli_change_drives_only(
    s: State,
    indices: Seq<i32>,
    amplitudes: Seq<Bits>,
    k: nat,
)
    requires
        s.wf(),
    ensures
        stimulated(s, indices, amplitudes, k) == (State {
            j_ext: stimulated(s, indices, amplitudes, k).j_ext,
            j_ext_nonzero: stimulated(s, indices, amplitudes, k).j_ext_nonzero,
            ..s
        }),
        stimulated(s, indices, amplitudes, k).j_ext.len() == s.n(),
    decreases k,
{
    if k > 0 {
        law_stimuli_change_drives_only(s, indices, amplitudes, (k - 1) as nat);
    }
}

/// A node that is given no amplitude keeps its drive.
pub proof fn law_unnamed_drive_stays(
    s: State,
    indices: Seq<i32>,
    amplitudes: Seq<Bits>,
    k: nat,
    i: usize,
)
    requires
        s.wf(),
        i < s.n(),
        forall|l: int| 0 <= l < k ==> #[trigger] indices[l] != i,
    ensures
        stimulated(s, indices, amplitudes, k).j_ext[i as int] == s.j_ext[i as int],
    decreases k,
{
    if k > 0 {
        let last = (k - 1) as nat;
        law_unnamed_drive_stays(s, indices, amplitudes, last, i);
        law_stimuli_change_drives_only(s, indices, amplitudes, last);
        assert(indices[last as int] != i);
    }
}

/// Of the amplitudes that a node is given, the last one is its drive.
pub proof fn law_last_stimulus_wins(
    s: State,
    indices: Seq<i32>,
    amplitudes: Seq<Bits>,
    k: nat,
    i: usize,
    l: int,
)
    requires
        s.wf(),
        i < s.n(),
        0 <= l < k,
        indices[l] == i,
        forall|m: int| l < m < k ==> #[trigger] indices[m] != i,
    ensures
        stimulated(s, indices, amplitudes, k).j_ext[i as int] == amplitudes[l],
    decreases k,
{
    let last = (k - 1) as nat;
    law_stimuli_change_drives_only(s, indices, amplitudes, last);
    if l < last {
        law_last_stimulus_wins(s, indices, amplitudes, last, i, l);
        assert(indices[last as int] != i);
    }
}

/// The register gains the nodes that were given a stimulus, and loses none.
pub proof fn law_stimuli_are_registered(
    s: State,
    indices: Seq<i32>,
    amplitudes: Seq<Bits>,
    k: nat,
    i: usize,
)
    requires
        s.wf(),
        i < s.n(),
    ensures
        stimulated(s, indices, amplitudes, k).j_ext_nonzero.contains(i) <==> s.j_ext_nonzero.contains(
            i,
        ) || exists|l: int|
            0 <= l < k && #[trigger] indices[l] == i && is_stimulus(amplitudes[l]),
    decreases k,
{
    if k > 0 {
        let last = (k - 1) as nat;
        law_stimuli_are_registered(s, indices, amplitudes, last, i);
        law_stimuli_change_drives_only(s, indices, amplitudes, last);
        let u = stimulated(s, indices, amplitudes, last);
        if u.j_ext_nonzero.contains(i) && !s.j_ext_nonzero.contains(i) {
            let l = choose|l: int|
                0 <= l < last && #[trigger] indices[l] == i && is_stimulus(amplitudes[l]);
            assert(indices[l] == i);
        }
        if indices[last as int] == i && is_stimulus(amplitudes[last as int]) {
            assert(indices[last as int] == i);
        }
    }
}

/// After a step no drive is left that counts as a stimulus.
pub proof fn law_drives_are_used_up(
    s: State,
    list: Seq<usize>,
    pairs: Seq<(usize, usize)>,
    numbers: StepNumbers,
)
    requires
        s.wf(),
    ensures
        advanced(s, list, pairs, numbers).j_ext_nonzero.is_empty(),
        forall|i: int|
            0 <= i < s.n() ==> !is_stimulus(
                #[trigger] advanced(s, list, pairs, numbers).j_ext[i],
            ),
{
    lemma_size_positive(DRIVE_FLOOR as int);
    lemma_size_positive(0);
    assert(!is_stimulus(ZERO));
    let t = advanced(s, list, pairs, numbers);
    assert forall|i: int| 0 <= i < s.n() implies !is_stimulus(#[trigger] t.j_ext[i]) by {
        if is_stimulus(s.j_ext[i]) {
            assert(s.j_ext_nonzero.contains(i as usize));
        }
    }
}

/// A drive is a stimulus where its magnitude is above the floor.
pub proof fn law_stimulus(drive: Bits)
    ensures
        is_stimulus(drive) <==> is_less(DRIVE_FLOOR, magnitude_of(drive)),
{
}

/// Two lists form as many pairs as the shorter one has entries.
pub proof fn law_pairs(indices: Seq<i32>, amplitudes: Seq<Bits>)
    ensures
        pairs_len(indices, amplitudes) <= indices.len(),
        pairs_len(indices, amplitudes) <= amplitudes.len(),
        pairs_len(indices, amplitudes) == indices.len() || pairs_len(indices, amplitudes)
            == amplitudes.len(),
{
}

/// Stimulating by two lists gives a node the amplitude of the last entry that both lists have and
/// that names it, and a node that none names keeps its drive. The register gains the nodes that an
/// entry gives a stimulus to. Nothing else changes.
pub proof fn law_every_entry_counts(s: State, indices: Seq<i32>, amplitudes: Seq<Bits>)
    requires
        s.wf(),
    ensures
        ({
            let t = stimulated(s, indices, amplitudes, pairs_len(indices, amplitudes));
            &&& t == (State { j_ext: t.j_ext, j_ext_nonzero: t.j_ext_nonzero, ..s })
            &&& t.j_ext.len() == s.rows.len()
            &&& forall|l: int|
                0 <= l < indices.len() && l < amplitudes.len() && 0 <= indices[l] < s.rows.len() && (
                forall|m: int|
                    l < m < indices.len() && m < amplitudes.len() ==> #[trigger] indices[m]
                        != indices[l]) ==> t.j_ext[indices[l] as int] == #[trigger] amplitudes[l]
            &&& forall|i: int|
                0 <= i < s.rows.len() && (forall|m: int|
                    0 <= m < indices.len() && m < amplitudes.len() ==> #[trigger] indices[m] != i)
                    ==> #[trigger] t.j_ext[i] == s.j_ext[i]
            &&& forall|i: usize|
                i < s.rows.len() ==> (#[trigger] t.j_ext_nonzero.contains(i)
                    <==> s.j_ext_nonzero.contains(i) || exists|l: int|
                    0 <= l < indices.len() && l < amplitudes.len() && #[trigger] indices[l] == i
                        && is_less(DRIVE_FLOOR, magnitude_of(amplitudes[l])))
        }),
{
    let k = pairs_len(indices, amplitudes);
    let t = stimulated(s, indices, amplitudes, k);
    law_pairs(indices, amplitudes);
    law_stimuli_change_drives_only(s, indices, amplitudes, k);
    assert forall|l: int|
        0 <= l < indices.len() && l < amplitudes.len() && 0 <= indices[l] < s.rows.len() && (forall|
            m: int,
        |
            l < m < indices.len() && m < amplitudes.len() ==> #[trigger] indices[m]
                != indices[l]) implies t.j_ext[indices[l] as int] == #[trigger] amplitudes[l] by {
        law_last_stimulus_wins(s, indices, amplitudes, k, indices[l] as usize, l);
    }
    assert forall|i: int|
        0 <= i < s.rows.len() && (forall|m: int|
            0 <= m < indices.len() && m < amplitudes.len() ==> #[trigger] indices[m]
                != i) implies #[trigger] t.j_ext[i] == s.j_ext[i] by {
        law_unnamed_drive_stays(s, indices, amplitudes, k, i as usize);
    }
    assert forall|i: usize| i < s.rows.len() implies (#[trigger] t.j_ext_nonzero.contains(i)
        <==> s.j_ext_nonzero.contains(i) || exists|l: int|
        0 <= l < indices.len() && l < amplitudes.len() && #[trigger] indices[l] == i && is_less(
            DRIVE_FLOOR,
            magnitude_of(amplitudes[l]),
        )) by {
        law_stimuli_are_registered(s, indices, amplitudes, k, i);
        if t.j_ext_nonzero.contains(i) && !s.j_ext_nonzero.contains(i) {
            let l = choose|l: int|
                0 <= l < k && #[trigger] indices[l] == i && is_stimulus(amplitudes[l]);
            assert(indices[l] == i);
        }
        if exists|l: int|
            0 <= l < indices.len() && l < amplitudes.len() && #[trigger] indices[l] == i && is_less(
                DRIVE_FLOOR,
                magnitude_of(amplitudes[l]),
            ) {
            let l = choose|l: int|
                0 <= l < indices.len() && l < amplitudes.len() && #[trigger] indices[l] == i
                    && is_less(DRIVE_FLOOR, magnitude_of(amplitudes[l]));
            assert(indices[l] == i && is_stimulus(amplitudes[l]));
        }
    }
}

} // verus!
