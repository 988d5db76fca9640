//! What holds of the sponge across calls and states.

use crate::chip::{next_state, result_bound, squeezed, PoseidonChip};
use crate::context::{lemma_copies_earlier, lemma_enforces_earlier, Context};
use crate::gate::{limb_values, read, reads, Assignment, Limb};
use crate::permutation::{permutation, SpecView};
use crate::state::{
    constants_bound, default_values, PoseidonState, PREFIX_CHALLENGE, PREFIX_POINT, PREFIX_SCALAR,
};
use vstd::prelude::*;

verus! {

/// With the reset flag set, a call on an initialized chip squeezes out the
/// second element of the permutation of the fresh state, the capacity marker
/// followed by zeros, with the inputs absorbed.
pub proof fn reset_gives_the_hash_of_the_inputs(
    chip: PoseidonChip,
    inputs: Seq<nat>,
    reset: nat,
)
    requires
        chip.poseidon_state.initialized(chip.spec.t as nat),
        reset != 0,
    ensures
        squeezed(
            chip.spec@,
            limb_values(chip.poseidon_state.state@),
            limb_values(chip.poseidon_state.default@),
            inputs,
            reset,
        ) == permutation(chip.spec@, default_values(chip.spec.t as nat), inputs)[1],
{
}

/// With the reset flag set, the state that had accumulated has no part in
/// what a call leaves behind or squeezes out.
pub proof fn reset_forgets_the_state(
    spec: SpecView,
    state_a: Seq<nat>,
    state_b: Seq<nat>,
    default: Seq<nat>,
    inputs: Seq<nat>,
    reset: nat,
)
    requires
        reset != 0,
    ensures
        next_state(spec, state_a, default, inputs, reset) == next_state(
            spec,
            state_b,
            default,
            inputs,
            reset,
        ),
        squeezed(spec, state_a, default, inputs, reset) == squeezed(
            spec,
            state_b,
            default,
            inputs,
            reset,
        ),
{
}

/// With the reset flag clear, the accumulated state and the inputs decide
/// what a call leaves behind and squeezes out, and the fresh state has no
/// part in it.
pub proof fn continue_goes_on_from_the_state(
    spec: SpecView,
    state: Seq<nat>,
    default_a: Seq<nat>,
    default_b: Seq<nat>,
    inputs: Seq<nat>,
)
    ensures
        next_state(spec, state, default_a, inputs, 0) == permutation(spec, state, inputs),
        next_state(spec, state, default_a, inputs, 0) == next_state(
            spec,
            state,
            default_b,
            inputs,
            0,
        ),
        squeezed(spec, state, default_a, inputs, 0) == permutation(spec, state, inputs)[1],
{
}

/// What the rows of an initialization fix stays fixed: in every later
/// context that kept them, and for every later state of the same sponge.
pub proof fn constants_stay_bound(
    later: Context,
    earlier: Context,
    from: int,
    state: PoseidonState,
    after: PoseidonState,
)
    requires
        constants_bound(earlier, from, state),
        later.keeps(earlier),
        0 <= from,
        from + 5 <= earlier.lines@.len(),
        after.default == state.default,
        after.prefix == state.prefix,
    ensures
        constants_bound(later, from, after),
{
    assert forall|a: Assignment| #[trigger] later.enforces(a, from, from + 5) implies reads(
        a,
        after.default@,
    ) == default_values(after.default@.len()) && reads(a, after.prefix@) == seq![
        PREFIX_CHALLENGE as nat,
        PREFIX_POINT as nat,
        PREFIX_SCALAR as nat,
    ] by {
        lemma_enforces_earlier(later, earlier, a, from, from + 5, from + 5);
    }
}

/// What the rows of a call bind stays bound in every later context that kept
/// its rows and equalities.
pub proof fn result_stays_bound(
    later: Context,
    earlier: Context,
    from: int,
    to: int,
    spec: SpecView,
    before: PoseidonState,
    values: Seq<Limb>,
    reset: Limb,
    result: Limb,
)
    requires
        result_bound(earlier, from, to, spec, before, values, reset, result),
        later.keeps(earlier),
        0 <= from,
        to <= earlier.lines@.len(),
    ensures
        result_bound(later, from, to, spec, before, values, reset, result),
{
    assert forall|a: Assignment|
        #![trigger later.enforces(a, from, to)]
        later.enforces(a, from, to) && later.copies_enforced(a) && read(a, reset) <= 1 implies read(
        a,
        result,
    ) == squeezed(
        spec,
        reads(a, before.state@),
        reads(a, before.default@),
        reads(a, values),
        read(a, reset),
    ) by {
        lemma_enforces_earlier(later, earlier, a, from, to, to);
        lemma_copies_earlier(later, earlier, a);
    }
}

/// A result bound by a call with the reset flag set is the hash of the
/// inputs: every assignment that satisfies the rows of the initialization
/// and of the call, respects the equalities and sets the flag gives the cell
/// of the result the second element of the permutation of the fresh state,
/// the capacity marker followed by zeros, with the values of the input cells
/// absorbed.
pub proof fn bound_result_is_the_hash_of_the_inputs(
    ctx: Context,
    a: Assignment,
    init: int,
    from: int,
    to: int,
    spec: SpecView,
    before: PoseidonState,
    values: Seq<Limb>,
    reset: Limb,
    result: Limb,
)
    requires
        constants_bound(ctx, init, before),
        result_bound(ctx, from, to, spec, before, values, reset, result),
        ctx.enforces(a, init, init + 5),
        ctx.enforces(a, from, to),
        ctx.copies_enforced(a),
        read(a, reset) == 1,
    ensures
        read(a, result) == permutation(
            spec,
            default_values(before.default@.len()),
            reads(a, values),
        )[1],
{
}

} // verus!
