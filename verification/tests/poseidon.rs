use std::collections::HashMap;

use halo2_proofs::circuit::{Cell, Layouter, Region, SimpleFloorPlanner, Value};
use halo2_proofs::dev::MockProver;
use halo2_proofs::pasta::group::ff::PrimeField;
use halo2_proofs::pasta::Fp;
use halo2_proofs::plonk::{Advice, Circuit, Column, ConstraintSystem, Error as PlonkError, Fixed};
use halo2_proofs::poly::Rotation;

use poseidon_chip::chip::PoseidonChip;
use poseidon_chip::field::Fe;
use poseidon_chip::context::Context;
use poseidon_chip::gate::{CellRef, Error, Limb, Line};
use poseidon_chip::params::{SparseMDSMatrix, Spec};
use poseidon_chip::state::{
    PoseidonState, CAPACITY_MARKER, PREFIX_CHALLENGE, PREFIX_POINT, PREFIX_SCALAR,
};

// ---------------------------------------------------------------------------
// Field elements on both sides

fn to_fe(x: Fp) -> Fe {
    let b = x.to_repr();
    Fe::from_limbs([
        u64::from_le_bytes(b[0..8].try_into().unwrap()),
        u64::from_le_bytes(b[8..16].try_into().unwrap()),
        u64::from_le_bytes(b[16..24].try_into().unwrap()),
        u64::from_le_bytes(b[24..32].try_into().unwrap()),
    ])
}

fn to_fp(x: &Fe) -> Fp {
    Fp::from_raw(x.limbs)
}

fn free(x: Fp) -> Limb {
    Limb::new(None, to_fe(x))
}

/// A limb in a column of its own, outside the rows of the chip.
fn placed(row: usize, x: Fp) -> Limb {
    Limb::new(Some(CellRef { row, column: HELPER }), to_fe(x))
}

const HELPER: usize = 5;

// ---------------------------------------------------------------------------
// Parameters and a permutation computed without any constraint

#[derive(Clone, Debug)]
struct Plain {
    t: usize,
    r_f: usize,
    r_p: usize,
    mds: Vec<Vec<Fp>>,
    pre_sparse_mds: Vec<Vec<Fp>>,
    sparse: Vec<(Vec<Fp>, Vec<Fp>)>,
    start: Vec<Vec<Fp>>,
    partial: Vec<Fp>,
    end: Vec<Vec<Fp>>,
}

struct Stream(Fp);

impl Stream {
    fn next(&mut self) -> Fp {
        self.0 = self.0 * self.0 + Fp::from(0x9e37_79b9_7f4a_7c15u64);
        self.0
    }

    fn vector(&mut self, n: usize) -> Vec<Fp> {
        (0..n).map(|_| self.next()).collect()
    }

    fn matrix(&mut self, rows: usize, n: usize) -> Vec<Vec<Fp>> {
        (0..rows).map(|_| self.vector(n)).collect()
    }
}

fn plain(t: usize, r_f: usize, r_p: usize, seed: u64) -> Plain {
    let mut s = Stream(Fp::from(seed));
    Plain {
        t,
        r_f,
        r_p,
        mds: s.matrix(t, t),
        pre_sparse_mds: s.matrix(t, t),
        sparse: (0..r_p).map(|_| (s.vector(t), s.vector(t - 1))).collect(),
        start: s.matrix(r_f / 2 + 1, t),
        partial: s.vector(r_p),
        end: s.matrix(r_f / 2 - 1, t),
    }
}

fn fes(v: &[Fp]) -> Vec<Fe> {
    v.iter().map(|x| to_fe(*x)).collect()
}

fn spec_of(p: &Plain) -> Spec {
    Spec {
        t: p.t,
        rate: p.t - 1,
        r_f: p.r_f,
        r_p: p.r_p,
        mds: p.mds.iter().map(|r| fes(r)).collect(),
        pre_sparse_mds: p.pre_sparse_mds.iter().map(|r| fes(r)).collect(),
        sparse_matrices: p
            .sparse
            .iter()
            .map(|(row, col_hat)| SparseMDSMatrix { row: fes(row), col_hat: fes(col_hat) })
            .collect(),
        start: p.start.iter().map(|r| fes(r)).collect(),
        partial: fes(&p.partial),
        end: p.end.iter().map(|r| fes(r)).collect(),
    }
}

fn pow5(x: Fp) -> Fp {
    let x2 = x * x;
    x2 * x2 * x
}

fn plain_full_round(state: &mut Vec<Fp>, constants: &[Fp], m: &[Vec<Fp>]) {
    let boxed: Vec<Fp> = state.iter().zip(constants).map(|(x, c)| pow5(*x) + c).collect();
    *state = m
        .iter()
        .map(|row| boxed.iter().zip(row).fold(Fp::zero(), |acc, (x, w)| acc + *x * w))
        .collect();
}

fn plain_permute(p: &Plain, state: &mut Vec<Fp>, inputs: &[Fp]) {
    assert_eq!(inputs.len() + 1, p.t);
    state[0] = state[0] + p.start[0][0];
    for i in 1..p.t {
        state[i] = state[i] + inputs[i - 1] + p.start[0][i];
    }
    for constants in &p.start[1..p.start.len() - 1] {
        plain_full_round(state, constants, &p.mds);
    }
    plain_full_round(state, p.start.last().unwrap(), &p.pre_sparse_mds);
    for (c, (row, col_hat)) in p.partial.iter().zip(&p.sparse) {
        state[0] = pow5(state[0]) + c;
        let first = state.iter().zip(row).fold(Fp::zero(), |acc, (x, w)| acc + *x * w);
        let mut next = vec![first];
        for i in 1..p.t {
            next.push(state[0] * col_hat[i - 1] + state[i]);
        }
        *state = next;
    }
    for constants in &p.end {
        plain_full_round(state, constants, &p.mds);
    }
    plain_full_round(state, &vec![Fp::zero(); p.t], &p.mds);
}

fn fresh_state(t: usize) -> Vec<Fp> {
    let mut s = vec![Fp::zero(); t];
    s[0] = Fp::from_raw([0, 1, 0, 0]);
    s
}

/// What a sponge that starts afresh squeezes out after absorbing `inputs`.
fn plain_hash(p: &Plain, inputs: &[Fp]) -> Fp {
    let mut state = fresh_state(p.t);
    plain_permute(p, &mut state, inputs);
    state[1]
}

fn one_then_zeros(n: usize) -> Vec<Fp> {
    let mut v = vec![Fp::zero(); n];
    v[0] = Fp::one();
    v
}

fn values_of(limbs: &[Limb]) -> Vec<Fp> {
    limbs.iter().map(|l| to_fp(&l.value)).collect()
}

// ---------------------------------------------------------------------------
// The rows, checked by hand and laid out in a proof system

fn slot_value(c: &Option<Limb>) -> Fp {
    c.map(|l| to_fp(&l.value)).unwrap_or(Fp::zero())
}

fn coeff(c: &Option<Fe>) -> Fp {
    c.map(|f| to_fp(&f)).unwrap_or(Fp::zero())
}

fn row_sum(line: &Line) -> Fp {
    let l: Vec<Fp> = line.cells.iter().map(slot_value).collect();
    let c: Vec<Fp> = line.coeffs.iter().map(coeff).collect();
    c[0] * l[0]
        + c[1] * l[1]
        + c[2] * l[2]
        + c[3] * l[3]
        + c[4] * l[4]
        + c[5] * l[5]
        + c[6] * l[0] * l[3]
        + c[7] * l[1] * l[2]
        + c[8]
}

fn place_of(line: &Line, slot: usize) -> (usize, usize) {
    if slot == 5 {
        (line.offset + 1, 4)
    } else {
        (line.offset, slot)
    }
}

/// Every row is satisfied, and every copy carries the value of its source.
fn rows_are_consistent(ctx: &Context, outside: &[Limb]) -> bool {
    let mut seen: HashMap<(usize, usize), Fp> = HashMap::new();
    for l in outside {
        let c = l.cell.unwrap();
        seen.insert((c.row, c.column), to_fp(&l.value));
    }
    for line in &ctx.lines {
        if row_sum(line) != Fp::zero() {
            return false;
        }
        for slot in 0..6 {
            if let Some(limb) = line.cells[slot] {
                let v = to_fp(&limb.value);
                if let Some(src) = limb.cell {
                    if seen.get(&(src.row, src.column)) != Some(&v) {
                        return false;
                    }
                }
                seen.insert(place_of(line, slot), v);
            }
        }
    }
    ctx.copies
        .iter()
        .all(|(a, b)| seen.get(&(a.row, a.column)) == seen.get(&(b.row, b.column)))
}

#[derive(Clone, Debug)]
struct Columns {
    witness: [Column<Advice>; 5],
    coeffs: [Column<Fixed>; 9],
    helper: Column<Advice>,
}

fn columns(meta: &mut ConstraintSystem<Fp>) -> Columns {
    let witness = [0; 5].map(|_| meta.advice_column());
    let coeffs = [0; 9].map(|_| meta.fixed_column());
    let helper = meta.advice_column();
    for w in witness {
        meta.enable_equality(w);
    }
    meta.enable_equality(helper);
    meta.create_gate("line", |cells| {
        let l = witness.map(|w| cells.query_advice(w, Rotation::cur()));
        let d_next = cells.query_advice(witness[4], Rotation::next());
        let c = coeffs.map(|c| cells.query_fixed(c, Rotation::cur()));
        vec![
            c[0].clone() * l[0].clone()
                + c[1].clone() * l[1].clone()
                + c[2].clone() * l[2].clone()
                + c[3].clone() * l[3].clone()
                + c[4].clone() * l[4].clone()
                + c[5].clone() * d_next
                + c[6].clone() * l[0].clone() * l[3].clone()
                + c[7].clone() * l[1].clone() * l[2].clone()
                + c[8].clone(),
        ]
    });
    Columns { witness, coeffs, helper }
}

fn lay_out(
    ctx: &Context,
    columns: &Columns,
    region: &mut Region<'_, Fp>,
    cells: &mut HashMap<(usize, usize), Cell>,
) -> Result<(), PlonkError> {
    for line in &ctx.lines {
        for slot in 0..6 {
            if let Some(limb) = line.cells[slot] {
                let (row, column) = place_of(line, slot);
                let v = to_fp(&limb.value);
                let cell = region
                    .assign_advice(|| "witness", columns.witness[column], row, || Value::known(v))?
                    .cell();
                if let Some(src) = limb.cell {
                    region.constrain_equal(cell, cells[&(src.row, src.column)])?;
                }
                cells.insert((row, column), cell);
            }
        }
        for k in 0..9 {
            let c = coeff(&line.coeffs[k]);
            region.assign_fixed(|| "coefficient", columns.coeffs[k], line.offset, || Value::known(c))?;
        }
    }
    for (a, b) in &ctx.copies {
        region.constrain_equal(cells[&(a.row, a.column)], cells[&(b.row, b.column)])?;
    }
    Ok(())
}

#[derive(Clone, Debug, Default)]
struct TestCircuit {
    inputs: Vec<Fp>,
    result: Fp,
}

impl Circuit<Fp> for TestCircuit {
    type Config = Columns;
    type FloorPlanner = SimpleFloorPlanner;

    fn without_witnesses(&self) -> Self {
        Self::default()
    }

    fn configure(meta: &mut ConstraintSystem<Fp>) -> Self::Config {
        columns(meta)
    }

    fn synthesize(
        &self,
        config: Self::Config,
        mut layouter: impl Layouter<Fp>,
    ) -> Result<(), PlonkError> {
        let p = plain(9, 8, 63, 1);
        layouter.assign_region(
            || "assign poseidon test",
            |mut region| {
                let mut cells: HashMap<(usize, usize), Cell> = HashMap::new();
                let mut outside: Vec<Limb> = vec![];
                let mut given = vec![self.result];
                given.extend(self.inputs.iter().copied());
                given.push(Fp::one());
                for (row, v) in given.iter().enumerate() {
                    let cell = region
                        .assign_advice(|| "assign input", config.helper, row, || Value::known(*v))?
                        .cell();
                    cells.insert((row, HELPER), cell);
                    outside.push(placed(row, *v));
                }
                let result = outside[0];
                let inputs = outside[1..outside.len() - 1].to_vec();
                let reset = outside[outside.len() - 1];

                let mut chip = PoseidonChip::construct(spec_of(&p)).unwrap();
                let mut ctx = PoseidonChip::configure(1 << 15);
                chip.initialize(&mut ctx).map_err(|_| PlonkError::Synthesis)?;
                chip.assign_permute(&mut ctx, &inputs, &reset, &result)
                    .map_err(|_| PlonkError::Synthesis)?;
                lay_out(&ctx, &config, &mut region, &mut cells)
            },
        )?;
        Ok(())
    }
}

// ---------------------------------------------------------------------------
// The sponge

#[test]
fn test_poseidon_circuit_00() {
    let p = plain(9, 8, 63, 1);
    let inputs = vec![
        Fp::one(),
        Fp::zero(),
        Fp::zero(),
        Fp::zero(),
        Fp::zero(),
        Fp::zero(),
        Fp::zero(),
        Fp::zero(),
    ];
    let result = plain_hash(&p, &inputs);
    let test_circuit = TestCircuit { inputs, result };
    println!("result is {:?}", result);
    let prover = MockProver::run(16, &test_circuit, vec![]).unwrap();
    assert_eq!(prover.verify(), Ok(()));
}

#[test]
fn a_wrong_witness_is_caught_by_the_prover() {
    // The same layout with one witness value changed after the fact does not verify:
    // the rows really constrain what they carry.
    #[derive(Clone, Debug, Default)]
    struct Tampered;
    impl Circuit<Fp> for Tampered {
        type Config = Columns;
        type FloorPlanner = SimpleFloorPlanner;

        fn without_witnesses(&self) -> Self {
            Tampered
        }

        fn configure(meta: &mut ConstraintSystem<Fp>) -> Self::Config {
            columns(meta)
        }

        fn synthesize(
            &self,
            config: Self::Config,
            mut layouter: impl Layouter<Fp>,
        ) -> Result<(), PlonkError> {
            layouter.assign_region(
                || "tampered",
                |mut region| {
                    let mut cells: HashMap<(usize, usize), Cell> = HashMap::new();
                    let mut ctx = Context::new(16);
                    let x = free(Fp::from(3));
                    PoseidonState::x_power5_with_constant(&mut ctx, &x, to_fe(Fp::from(1)))
                        .unwrap();
                    let mut d = ctx.lines[2].cells[4].unwrap();
                    d.value = to_fe(Fp::from(245));
                    ctx.lines[2].cells[4] = Some(d);
                    lay_out(&ctx, &config, &mut region, &mut cells)
                },
            )
        }
    }
    let prover = MockProver::run(6, &Tampered, vec![]).unwrap();
    assert!(prover.verify().is_err());
}

fn ready(p: &Plain, rows: usize) -> (PoseidonChip, Context) {
    let mut chip = PoseidonChip::construct(spec_of(p)).unwrap();
    let mut ctx = PoseidonChip::configure(rows);
    chip.initialize(&mut ctx).unwrap();
    (chip, ctx)
}

fn inputs_at(values: &[Fp]) -> Vec<Limb> {
    values.iter().enumerate().map(|(i, v)| placed(i + 1, *v)).collect()
}

fn flag(set: bool) -> Limb {
    placed(100, if set { Fp::one() } else { Fp::zero() })
}

#[test]
fn the_hash_of_one_and_seven_zeros_is_that_of_the_plain_permutation() {
    let p = plain(9, 8, 63, 1);
    let (mut chip, mut ctx) = ready(&p, 4096);
    let inputs = one_then_zeros(8);
    let r = chip.get_permute_result(&mut ctx, &inputs_at(&inputs), &flag(true)).unwrap();
    assert_eq!(to_fp(&r.value), plain_hash(&p, &inputs));
}

#[test]
fn the_whole_state_is_that_of_the_plain_permutation() {
    let p = plain(9, 8, 63, 7);
    let (mut chip, mut ctx) = ready(&p, 4096);
    let mut s = Stream(Fp::from(99));
    let inputs = s.vector(8);
    chip.get_permute_result(&mut ctx, &inputs_at(&inputs), &flag(true)).unwrap();
    let mut state = fresh_state(9);
    plain_permute(&p, &mut state, &inputs);
    assert_eq!(values_of(&chip.poseidon_state.state), state);
}

#[test]
fn other_widths_and_round_counts_agree_with_the_plain_permutation() {
    for (t, r_f, r_p) in [(2, 2, 0), (3, 8, 57), (5, 4, 3), (4, 6, 1)] {
        let p = plain(t, r_f, r_p, 11 + t as u64);
        let (mut chip, mut ctx) = ready(&p, 1 << 14);
        let mut s = Stream(Fp::from(3));
        let inputs = s.vector(t - 1);
        let r = chip.get_permute_result(&mut ctx, &inputs_at(&inputs), &flag(true)).unwrap();
        assert_eq!(to_fp(&r.value), plain_hash(&p, &inputs));
        assert!(rows_are_consistent(&ctx, &[inputs_at(&inputs), vec![flag(true)]].concat()));
    }
}

#[test]
fn a_reset_forgets_what_was_absorbed_before() {
    let p = plain(9, 8, 63, 1);
    let mut s = Stream(Fp::from(5));
    let earlier = s.vector(8);
    let inputs = s.vector(8);

    let (mut a, mut ctx_a) = ready(&p, 8192);
    a.get_permute_result(&mut ctx_a, &inputs_at(&earlier), &flag(true)).unwrap();
    let from_used = a.get_permute_result(&mut ctx_a, &inputs_at(&inputs), &flag(true)).unwrap();

    let (mut b, mut ctx_b) = ready(&p, 8192);
    let from_fresh = b.get_permute_result(&mut ctx_b, &inputs_at(&inputs), &flag(true)).unwrap();

    assert_eq!(to_fp(&from_used.value), to_fp(&from_fresh.value));
    assert_eq!(to_fp(&from_used.value), plain_hash(&p, &inputs));
}

#[test]
fn without_a_reset_the_sponge_goes_on_from_its_state() {
    let p = plain(9, 8, 63, 1);
    let mut s = Stream(Fp::from(6));
    let first = s.vector(8);
    let second = s.vector(8);

    let (mut chip, mut ctx) = ready(&p, 8192);
    chip.get_permute_result(&mut ctx, &inputs_at(&first), &flag(true)).unwrap();
    let r = chip.get_permute_result(&mut ctx, &inputs_at(&second), &flag(false)).unwrap();

    let mut state = fresh_state(9);
    plain_permute(&p, &mut state, &first);
    plain_permute(&p, &mut state, &second);
    assert_eq!(to_fp(&r.value), state[1]);
    assert_ne!(to_fp(&r.value), plain_hash(&p, &second));
    let mut outside = inputs_at(&first);
    outside.push(flag(true));
    assert!(!rows_are_consistent(&ctx, &outside)); // the inputs changed under the same cells
}

#[test]
fn two_calls_on_cells_of_their_own_leave_consistent_rows() {
    let p = plain(3, 4, 2, 21);
    let (mut chip, mut ctx) = ready(&p, 4096);
    let first = vec![placed(1, Fp::from(4)), placed(2, Fp::from(5))];
    let second = vec![placed(3, Fp::from(6)), placed(4, Fp::from(7))];
    let set = placed(5, Fp::one());
    let clear = placed(6, Fp::zero());
    chip.get_permute_result(&mut ctx, &first, &set).unwrap();
    chip.get_permute_result(&mut ctx, &second, &clear).unwrap();
    let outside = [first, second, vec![set, clear]].concat();
    assert!(rows_are_consistent(&ctx, &outside));
}

#[test]
fn the_result_is_the_second_element_of_the_state() {
    let p = plain(9, 8, 63, 1);
    let (mut chip, mut ctx) = ready(&p, 4096);
    let r = chip.get_permute_result(&mut ctx, &inputs_at(&one_then_zeros(8)), &flag(true)).unwrap();
    let second = chip.poseidon_state.state[1];
    assert_eq!(r.cell, second.cell);
    assert_eq!(to_fp(&r.value), to_fp(&second.value));
    assert_ne!(r.cell, chip.poseidon_state.state[0].cell);
    // the last row of the second weighted sum of the last mixing
    assert_eq!(r.cell, Some(CellRef { row: ctx.offset - 7 * 3 - 1, column: 4 }));
}

#[test]
fn the_claimed_result_is_bound_when_it_is_the_hash() {
    let p = plain(9, 8, 63, 1);
    let (mut chip, mut ctx) = ready(&p, 4096);
    let inputs = one_then_zeros(8);
    let claimed = placed(0, plain_hash(&p, &inputs));
    assert_eq!(chip.assign_permute(&mut ctx, &inputs_at(&inputs), &flag(true), &claimed), Ok(()));
    let computed = chip.poseidon_state.state[1].cell.unwrap();
    assert_eq!(ctx.copies, vec![(CellRef { row: 0, column: HELPER }, computed)]);
    let mut outside = inputs_at(&inputs);
    outside.push(flag(true));
    outside.push(claimed);
    assert!(rows_are_consistent(&ctx, &outside));
}

#[test]
fn a_claimed_result_that_differs_is_told_apart_before_it_is_bound() {
    let p = plain(9, 8, 63, 1);
    for set in [true, false] {
        let (mut chip, mut ctx) = ready(&p, 4096);
        let inputs = one_then_zeros(8);
        let r = chip.get_permute_result(&mut ctx, &inputs_at(&inputs), &flag(set)).unwrap();
        let right = placed(0, to_fp(&r.value));
        let wrong = placed(0, to_fp(&r.value) + Fp::one());
        assert!(r.same_value(&right));
        assert!(!r.same_value(&wrong));
        assert!(!wrong.same_value(&r));
        assert!(ctx.copies.is_empty());
        assert_eq!(ctx.offset, 5 + 1332);
        assert_eq!(PoseidonChip::bind_result(&mut ctx, &r, &right), Ok(()));
        assert_eq!(ctx.copies, vec![(right.cell.unwrap(), r.cell.unwrap())]);
        assert_eq!(ctx.offset, 5 + 1332);
        assert_eq!(
            PoseidonChip::bind_result(&mut ctx, &r, &free(to_fp(&r.value))),
            Err(Error::ConstraintAllocation)
        );
        assert_eq!(ctx.copies.len(), 1);
    }
}

#[test]
fn the_same_value_is_the_same_whatever_its_limbs() {
    let modulus = [0x992d30ed00000001u64, 0x224698fc094cf91b, 0, 0x4000000000000000];
    let mut above = modulus;
    above[0] += 4;
    let a = Limb::new(None, Fe::from_limbs(above));
    let b = free(Fp::from(4));
    let c = free(Fp::from(5));
    assert!(a.same_value(&b) && b.same_value(&a));
    assert!(!a.same_value(&c) && !c.same_value(&b));
    assert!(Limb::new(None, Fe::from_limbs(modulus)).same_value(&free(Fp::zero())));
}

#[test]
fn a_call_that_cannot_select_leaves_the_state_as_it_was() {
    let p = plain(9, 8, 63, 1);
    for left in 0..9 {
        let (mut chip, mut ctx) = ready(&p, 5 + left);
        let before = chip.poseidon_state.state.clone();
        let r = chip.get_permute_result(&mut ctx, &inputs_at(&one_then_zeros(8)), &flag(true));
        assert_eq!(r.map(|_| ()), Err(Error::ConstraintAllocation));
        let after = &chip.poseidon_state.state;
        assert_eq!(values_of(after), values_of(&before));
        let cells = |s: &[Limb]| s.iter().map(|l| l.cell).collect::<Vec<_>>();
        assert_eq!(cells(after), cells(&before));
        assert_eq!(ctx.lines.len(), 5 + left);
    }
}

#[test]
fn the_first_rows_of_a_call_select_with_the_round_as_hint() {
    let p = plain(3, 4, 2, 5);
    let (mut chip, mut ctx) = ready(&p, 4096);
    chip.round = 7;
    let before = chip.poseidon_state.state.clone();
    let default = chip.poseidon_state.default.clone();
    let reset = flag(false);
    chip.get_permute_result(&mut ctx, &inputs_at(&smalls(&[3, 4])), &reset).unwrap();
    let cell = |c: &Option<Limb>| c.map(|l| (l.cell, to_fp(&l.value)));
    let limb = |l: &Limb| Some((l.cell, to_fp(&l.value)));
    for i in 0..3 {
        let line = &ctx.lines[5 + i];
        assert_eq!((line.offset, line.hint), (5 + i, 7));
        assert_eq!(cell(&line.cells[0]), limb(&reset));
        assert_eq!(cell(&line.cells[1]), limb(&reset));
        assert_eq!(cell(&line.cells[2]), limb(&before[i]));
        assert_eq!(cell(&line.cells[3]), limb(&default[i]));
        assert_eq!(cell(&line.cells[4]), Some((None, to_fp(&before[i].value))));
    }
    assert!(ctx.lines[8..].iter().all(|l| l.hint == 0));
    assert_eq!(chip.round, 7);
}

#[test]
fn a_permutation_that_runs_out_of_rows_leaves_the_state_of_its_last_step() {
    let p = plain(3, 4, 2, 5);
    let spec = spec_of(&p);
    let inputs = smalls(&[3, 4]);
    let start = smalls(&[6, 7, 8]);
    let absorbed: Vec<Fp> = vec![
        start[0] + p.start[0][0],
        start[1] + inputs[0] + p.start[0][1],
        start[2] + inputs[1] + p.start[0][2],
    ];
    let boxed: Vec<Fp> = (0..3).map(|i| pow5(absorbed[i]) + p.start[1][i]).collect();
    // a full round of three elements takes nine rows for the S-boxes and three for the sums
    for (rows, expected) in [
        (0, start.clone()),
        (2, vec![absorbed[0], absorbed[1], start[2]]),
        (3, absorbed.clone()),
        (3 + 5, vec![boxed[0], absorbed[1], absorbed[2]]),
        (3 + 9, boxed.clone()),
        (3 + 9 + 2, boxed.clone()),
    ] {
        let mut ctx = Context::new(rows);
        let mut s = state_of(&[6, 7, 8]);
        let r = s.permute(&mut ctx, &spec, &inputs_at(&inputs));
        assert_eq!(r, Err(Error::ConstraintAllocation));
        assert_eq!(values_of(&s.state), expected, "with {} rows", rows);
        assert_eq!((ctx.offset, ctx.lines.len()), (rows, rows));
    }
    let mut ctx = Context::new(3 + 12);
    let mut s = state_of(&[6, 7, 8]);
    assert!(s.permute(&mut ctx, &spec, &inputs_at(&inputs)).is_err());
    let mut mixed = boxed.clone();
    mixed = p.mds.iter().map(|row| mixed.iter().zip(row).fold(Fp::zero(), |a, (x, w)| a + *x * w)).collect();
    assert_eq!(values_of(&s.state), mixed);
}

#[test]
fn the_last_round_adds_no_constants_and_mixes_by_the_dense_matrix() {
    let p = plain(3, 4, 2, 5);
    let spec = spec_of(&p);
    let (mut chip, mut ctx) = ready(&p, 4096);
    chip.poseidon_state.permute(&mut ctx, &spec, &inputs_at(&smalls(&[3, 4]))).unwrap();
    let n = ctx.lines.len();
    // the last round: three S-boxes of three rows, then three sums of one row
    let sums = &ctx.lines[n - 3..];
    let boxes = &ctx.lines[n - 12..n - 3];
    for i in 0..3 {
        let closing = &boxes[3 * i + 2];
        assert_eq!(closing.coeffs[8].map(|c| to_fp(&c)), Some(Fp::zero()));
        assert!(boxes[3 * i].coeffs[8].is_none() && boxes[3 * i + 1].coeffs[8].is_none());
        let weights: Vec<Fp> = (1..4).map(|k| coeff(&sums[i].coeffs[k])).collect();
        assert_eq!(weights, p.mds[i]);
        assert!(sums[i].coeffs[8].is_none() && sums[i].cells[0].is_none());
        for k in 0..3 {
            assert_eq!(
                sums[i].cells[k + 1].unwrap().cell,
                Some(CellRef { row: boxes[3 * k + 2].offset, column: 4 })
            );
        }
    }
}

#[test]
fn a_claimed_result_without_a_cell_cannot_be_bound() {
    let p = plain(9, 8, 63, 1);
    let (mut chip, mut ctx) = ready(&p, 4096);
    let inputs = one_then_zeros(8);
    let claimed = free(plain_hash(&p, &inputs));
    assert_eq!(
        chip.assign_permute(&mut ctx, &inputs_at(&inputs), &flag(true), &claimed),
        Err(Error::ConstraintAllocation)
    );
    assert!(ctx.copies.is_empty());
}

#[test]
fn the_rows_of_a_call_do_not_depend_on_the_values() {
    let p = plain(9, 8, 63, 1);
    let mut s = Stream(Fp::from(77));
    for (inputs, set) in
        [(one_then_zeros(8), true), (vec![Fp::zero(); 8], false), (s.vector(8), true), (s.vector(8), false)]
    {
        let (mut chip, mut ctx) = ready(&p, 4096);
        assert_eq!((ctx.offset, ctx.lines.len()), (5, 5));
        chip.get_permute_result(&mut ctx, &inputs_at(&inputs), &flag(set)).unwrap();
        // 9 selects, 9 rows to absorb, 8 full rounds of 27 + 27 rows, 63 partial rounds of 3 + 3 + 8
        assert_eq!(ctx.offset, 5 + 9 + 9 + 8 * 54 + 63 * 14);
        assert_eq!(ctx.lines.len(), 1337);
        let offsets: Vec<usize> = ctx.lines.iter().map(|l| l.offset).collect();
        assert_eq!(offsets, (0..1337).collect::<Vec<_>>());
    }
}

#[test]
fn the_permutation_alone_takes_one_row_less_per_element() {
    let p = plain(9, 8, 63, 1);
    let spec = spec_of(&p);
    let (mut chip, mut ctx) = ready(&p, 4096);
    chip.poseidon_state.permute(&mut ctx, &spec, &inputs_at(&one_then_zeros(8))).unwrap();
    assert_eq!(ctx.offset, 5 + 1323);
    let mut state = fresh_state(9);
    plain_permute(&p, &mut state, &one_then_zeros(8));
    assert_eq!(values_of(&chip.poseidon_state.state), state);
}

#[test]
fn a_call_needs_all_its_rows() {
    let p = plain(9, 8, 63, 1);
    let inputs = inputs_at(&one_then_zeros(8));

    let (mut chip, mut ctx) = ready(&p, 1337);
    assert!(chip.get_permute_result(&mut ctx, &inputs, &flag(true)).is_ok());
    assert_eq!(ctx.offset, 1337);

    let (mut chip, mut ctx) = ready(&p, 1336);
    assert_eq!(
        chip.get_permute_result(&mut ctx, &inputs, &flag(true)).map(|_| ()),
        Err(Error::ConstraintAllocation)
    );
    assert!(ctx.offset <= 1336);

    let (mut chip, mut ctx) = ready(&p, 1336);
    let claimed = placed(0, plain_hash(&p, &one_then_zeros(8)));
    assert_eq!(
        chip.assign_permute(&mut ctx, &inputs, &flag(true), &claimed),
        Err(Error::ConstraintAllocation)
    );

    let (mut chip, mut ctx) = ready(&p, 5);
    assert_eq!(
        chip.get_permute_result(&mut ctx, &inputs, &flag(true)).map(|_| ()),
        Err(Error::ConstraintAllocation)
    );
    assert_eq!(ctx.offset, 5);
}

// ---------------------------------------------------------------------------
// Initialization and construction

#[test]
fn initialize_allocates_the_marker_the_zeros_and_the_tags() {
    let p = plain(9, 8, 63, 1);
    let mut chip = PoseidonChip::construct(spec_of(&p)).unwrap();
    assert_eq!(chip.round, 0);
    assert_eq!(chip.poseidon_state.state.len(), 9);
    assert!(chip.poseidon_state.state.iter().all(|l| l.cell.is_none() && to_fp(&l.value) == Fp::zero()));
    assert!(chip.poseidon_state.prefix.is_empty());

    let mut ctx = PoseidonChip::configure(64);
    ctx.offset = 17;
    assert_eq!(chip.initialize(&mut ctx), Ok(()));
    assert_eq!(ctx.offset, 5);
    assert_eq!(ctx.lines.len(), 5);

    let state = &chip.poseidon_state;
    assert_eq!(values_of(&state.default), fresh_state(9));
    assert_eq!(to_fp(&state.default[0].value), Fp::from_raw([0, 1, 0, 0]));
    assert_eq!(values_of(&state.state), fresh_state(9));
    assert_eq!(state.default[0].cell, Some(CellRef { row: 1, column: 0 }));
    for i in 1..9 {
        assert_eq!(state.default[i].cell, Some(CellRef { row: 0, column: 0 }));
        assert_eq!(state.state[i].cell, Some(CellRef { row: 0, column: 0 }));
    }
    assert_eq!(values_of(&state.prefix), vec![Fp::from(0), Fp::from(1), Fp::from(2)]);
    assert_eq!(
        values_of(&state.prefix),
        vec![Fp::from(PREFIX_CHALLENGE), Fp::from(PREFIX_POINT), Fp::from(PREFIX_SCALAR)]
    );
    for i in 0..3 {
        assert_eq!(state.prefix[i].cell, Some(CellRef { row: i + 2, column: 0 }));
    }
    assert_eq!(CAPACITY_MARKER, 1u128 << 64);
    assert!(rows_are_consistent(&ctx, &[]));
}

#[test]
fn initialize_again_discards_what_was_absorbed() {
    let p = plain(9, 8, 63, 1);
    let (mut chip, mut ctx) = ready(&p, 4096);
    chip.get_permute_result(&mut ctx, &inputs_at(&one_then_zeros(8)), &flag(true)).unwrap();
    assert_ne!(values_of(&chip.poseidon_state.state), fresh_state(9));
    assert_eq!(chip.initialize(&mut ctx), Ok(()));
    assert_eq!(ctx.offset, 5);
    assert_eq!(ctx.lines.len(), 1337 + 5);
    assert_eq!(values_of(&chip.poseidon_state.state), fresh_state(9));
    let r = chip.get_permute_result(&mut ctx, &inputs_at(&one_then_zeros(8)), &flag(false)).unwrap();
    assert_eq!(to_fp(&r.value), plain_hash(&p, &one_then_zeros(8)));
}

#[test]
fn initialize_needs_five_rows() {
    let p = plain(9, 8, 63, 1);
    for rows in 0..5 {
        let mut chip = PoseidonChip::construct(spec_of(&p)).unwrap();
        let mut ctx = PoseidonChip::configure(rows);
        assert_eq!(chip.initialize(&mut ctx), Err(Error::ConstraintAllocation));
        assert!(chip.poseidon_state.prefix.is_empty());
        assert!(chip.poseidon_state.default.iter().all(|l| l.cell.is_none()));
    }
    let mut chip = PoseidonChip::construct(spec_of(&p)).unwrap();
    let mut ctx = PoseidonChip::configure(5);
    assert_eq!(chip.initialize(&mut ctx), Ok(()));
}

#[test]
fn configure_gives_an_empty_context() {
    let ctx = PoseidonChip::configure(123);
    assert_eq!((ctx.offset, ctx.rows), (0, 123));
    assert!(ctx.lines.is_empty() && ctx.copies.is_empty());
}

#[test]
fn construct_refuses_parameters_that_do_not_fit() {
    let p = plain(9, 8, 63, 1);
    assert!(spec_of(&p).is_consistent());
    assert!(PoseidonChip::construct(spec_of(&p)).is_some());

    let broken: Vec<Box<dyn Fn(&mut Spec)>> = vec![
        Box::new(|s| s.rate = 7),
        Box::new(|s| s.t = 8),
        Box::new(|s| s.t = 1),
        Box::new(|s| s.r_p = 62),
        Box::new(|s| s.r_f = 6),
        Box::new(|s| s.r_f = 10),
        Box::new(|s| s.r_f = 0),
        Box::new(|s| {
            s.mds.pop();
        }),
        Box::new(|s| {
            s.mds[3].pop();
        }),
        Box::new(|s| {
            s.pre_sparse_mds[8].push(Fe::zero());
        }),
        Box::new(|s| {
            s.pre_sparse_mds.push(vec![Fe::zero(); 9]);
        }),
        Box::new(|s| {
            s.sparse_matrices.pop();
        }),
        Box::new(|s| {
            s.sparse_matrices[62].row.pop();
        }),
        Box::new(|s| {
            s.sparse_matrices[0].col_hat.push(Fe::one());
        }),
        Box::new(|s| {
            s.partial.pop();
        }),
        Box::new(|s| {
            s.start.pop();
        }),
        Box::new(|s| {
            s.start[0].pop();
        }),
        Box::new(|s| {
            s.end.push(vec![Fe::zero(); 9]);
        }),
        Box::new(|s| {
            s.end[2].pop();
        }),
    ];
    for (i, change) in broken.iter().enumerate() {
        let mut spec = spec_of(&p);
        change(&mut spec);
        assert!(!spec.is_consistent(), "case {}", i);
        assert!(PoseidonChip::construct(spec).is_none(), "case {}", i);
    }
    // an odd count of full rounds runs as the even count below it
    let mut spec = spec_of(&p);
    spec.r_f = 9;
    assert!(PoseidonChip::construct(spec).is_some());
}

// ---------------------------------------------------------------------------
// The rows of each step

#[test]
fn the_sbox_is_three_products() {
    let mut ctx = Context::new(10);
    ctx.offset = 4;
    let x = placed(9, Fp::from(2));
    let r = PoseidonState::x_power5_with_constant(&mut ctx, &x, to_fe(Fp::from(3))).unwrap();
    assert_eq!(to_fp(&r.value), Fp::from(35));
    assert_eq!(r.cell, Some(CellRef { row: 6, column: 4 }));
    assert_eq!(ctx.offset, 7);
    assert_eq!(ctx.lines.len(), 3);

    let minus_one = -Fp::one();
    let shape = |line: &Line| -> Vec<Option<Fp>> { line.coeffs.iter().map(|c| c.map(|f| to_fp(&f))).collect() };
    let product = vec![None, None, None, None, Some(minus_one), None, Some(Fp::one()), None, None];
    let mut closing = product.clone();
    closing[8] = Some(Fp::from(3));
    assert_eq!(shape(&ctx.lines[0]), product);
    assert_eq!(shape(&ctx.lines[1]), product);
    assert_eq!(shape(&ctx.lines[2]), closing);

    let cells = |line: &Line| -> Vec<Option<(Option<CellRef>, Fp)>> {
        line.cells.iter().map(|c| c.map(|l| (l.cell, to_fp(&l.value)))).collect()
    };
    let at = |row: usize| Some(CellRef { row, column: 4 });
    let given = Some(CellRef { row: 9, column: HELPER });
    assert_eq!(
        cells(&ctx.lines[0]),
        vec![Some((given, Fp::from(2))), None, None, Some((given, Fp::from(2))), Some((None, Fp::from(4))), None]
    );
    assert_eq!(
        cells(&ctx.lines[1]),
        vec![Some((at(4), Fp::from(4))), None, None, Some((at(4), Fp::from(4))), Some((None, Fp::from(16))), None]
    );
    assert_eq!(
        cells(&ctx.lines[2]),
        vec![Some((given, Fp::from(2))), None, None, Some((at(5), Fp::from(16))), Some((None, Fp::from(35))), None]
    );
    assert_eq!(ctx.lines.iter().map(|l| (l.offset, l.hint)).collect::<Vec<_>>(), vec![(4, 0), (5, 0), (6, 0)]);
    assert!(rows_are_consistent(&ctx, &[x]));
}

#[test]
fn the_sbox_wraps_around_the_modulus() {
    let mut ctx = Context::new(3);
    let x = -Fp::one();
    let r = PoseidonState::x_power5_with_constant(&mut ctx, &free(x), to_fe(Fp::from(1))).unwrap();
    assert_eq!(to_fp(&r.value), Fp::zero());
    let big = Fp::from_raw([u64::MAX, u64::MAX, u64::MAX, u64::MAX]);
    let mut ctx = Context::new(3);
    let unreduced = Limb::new(None, Fe::from_limbs([u64::MAX; 4]));
    let r = PoseidonState::x_power5_with_constant(&mut ctx, &unreduced, to_fe(big)).unwrap();
    assert_eq!(to_fp(&r.value), pow5(big) + big);
    assert!(rows_are_consistent(&ctx, &[]));
}

#[test]
fn the_sbox_needs_three_rows() {
    for rows in 0..3 {
        let mut ctx = Context::new(rows);
        let r = PoseidonState::x_power5_with_constant(&mut ctx, &free(Fp::from(2)), Fe::zero());
        assert_eq!(r.map(|_| ()), Err(Error::ConstraintAllocation));
        assert_eq!(ctx.lines.len(), rows);
    }
}

fn state_of(values: &[u64]) -> PoseidonState {
    let limbs: Vec<Limb> = values.iter().map(|v| free(Fp::from(*v))).collect();
    PoseidonState { state: limbs.clone(), default: limbs, prefix: vec![] }
}

fn small(v: &[u64]) -> Vec<Fe> {
    v.iter().map(|x| Fe::from_u64(*x)).collect()
}

fn smalls(v: &[u64]) -> Vec<Fp> {
    v.iter().map(|x| Fp::from(*x)).collect()
}

#[test]
fn sbox_full_raises_every_element() {
    let mut ctx = Context::new(100);
    let mut s = state_of(&[1, 2, 3]);
    assert_eq!(s.sbox_full(&mut ctx, &small(&[10, 20, 30])), Ok(()));
    assert_eq!(values_of(&s.state), smalls(&[11, 52, 273]));
    assert_eq!(ctx.offset, 9);
    for i in 0..3 {
        assert_eq!(s.state[i].cell, Some(CellRef { row: 3 * i + 2, column: 4 }));
    }
    assert_eq!(values_of(&s.default), smalls(&[1, 2, 3]));
    assert!(rows_are_consistent(&ctx, &[]));

    // with rows for two S-boxes and two rows more, the third element stays as it was
    let mut ctx = Context::new(8);
    let mut s = state_of(&[1, 2, 3]);
    assert_eq!(s.sbox_full(&mut ctx, &small(&[10, 20, 30])), Err(Error::ConstraintAllocation));
    assert_eq!(values_of(&s.state), smalls(&[11, 52, 3]));
    assert_eq!(
        s.state.iter().map(|l| l.cell).collect::<Vec<_>>(),
        vec![Some(CellRef { row: 2, column: 4 }), Some(CellRef { row: 5, column: 4 }), None]
    );
    assert_eq!((ctx.lines.len(), ctx.offset), (8, 8));
}

#[test]
fn sbox_part_raises_the_first_element_only() {
    let mut ctx = Context::new(100);
    let mut s = state_of(&[2, 2, 3]);
    assert_eq!(s.sbox_part(&mut ctx, &Fe::from_u64(7)), Ok(()));
    assert_eq!(values_of(&s.state), smalls(&[39, 2, 3]));
    assert_eq!(ctx.offset, 3);
    assert_eq!(s.state[0].cell, Some(CellRef { row: 2, column: 4 }));
    assert_eq!(s.state[1].cell, None);

    let mut ctx = Context::new(2);
    let mut s = state_of(&[2, 2, 3]);
    assert_eq!(s.sbox_part(&mut ctx, &Fe::from_u64(7)), Err(Error::ConstraintAllocation));
    assert_eq!(values_of(&s.state), smalls(&[2, 2, 3]));
    assert!(s.state.iter().all(|l| l.cell.is_none()));
}

#[test]
fn absorb_adds_inputs_and_constants_from_the_second_element_on() {
    let mut ctx = Context::new(100);
    let mut s = state_of(&[1, 2, 3]);
    let inputs = vec![free(Fp::from(100)), free(Fp::from(200))];
    assert_eq!(s.absorb_with_pre_constants(&mut ctx, &inputs, &small(&[10, 20, 30])), Ok(()));
    assert_eq!(values_of(&s.state), smalls(&[11, 122, 233]));
    assert_eq!(ctx.offset, 3);
    for i in 0..3 {
        assert_eq!(s.state[i].cell, Some(CellRef { row: i, column: 4 }));
    }
    assert!(rows_are_consistent(&ctx, &[]));
    // one row each: the element, then the input one place before it, and the constant
    for i in 0..3 {
        let line = &ctx.lines[i];
        assert_eq!((slot_value(&line.cells[1]), coeff(&line.coeffs[1])), (Fp::from(1 + i as u64), Fp::one()));
        if i == 0 {
            assert!(line.cells[2].is_none() && line.coeffs[2].is_none());
        } else {
            assert_eq!(
                (slot_value(&line.cells[2]), coeff(&line.coeffs[2])),
                (Fp::from(100 * i as u64), Fp::one())
            );
        }
        assert_eq!(line.coeffs[8].map(|c| to_fp(&c)), Some(Fp::from(10 * (1 + i as u64))));
        assert!(line.cells[0].is_none() && line.cells[3].is_none());
    }

    let mut ctx = Context::new(2);
    let mut s = state_of(&[1, 2, 3]);
    assert_eq!(
        s.absorb_with_pre_constants(&mut ctx, &inputs, &small(&[10, 20, 30])),
        Err(Error::ConstraintAllocation)
    );
    assert_eq!(values_of(&s.state), smalls(&[11, 122, 3]));
    assert_eq!(
        s.state.iter().map(|l| l.cell).collect::<Vec<_>>(),
        vec![Some(CellRef { row: 0, column: 4 }), Some(CellRef { row: 1, column: 4 }), None]
    );
}

#[test]
fn apply_mds_multiplies_by_the_rows() {
    let mut ctx = Context::new(100);
    let mut s = state_of(&[1, 2, 3, 4]);
    let m = vec![small(&[1, 0, 0, 0]), small(&[1, 1, 1, 1]), small(&[0, 2, 0, 5]), small(&[7, 0, 1, 0])];
    assert_eq!(s.apply_mds(&mut ctx, &m), Ok(()));
    assert_eq!(values_of(&s.state), smalls(&[1, 10, 24, 10]));
    // four terms take two rows
    assert_eq!(ctx.offset, 8);
    for i in 0..4 {
        assert_eq!(s.state[i].cell, Some(CellRef { row: 2 * i + 1, column: 4 }));
    }
    assert!(rows_are_consistent(&ctx, &[]));

    // each sum takes the whole old state under its row of the matrix
    for i in 0..4 {
        let (a, b) = (&ctx.lines[2 * i], &ctx.lines[2 * i + 1]);
        let mut weights: Vec<Fp> = (1..4).map(|k| coeff(&a.coeffs[k])).collect();
        weights.push(coeff(&b.coeffs[1]));
        assert_eq!(weights, values_of(&m[i].iter().map(|w| Limb::new(None, *w)).collect::<Vec<_>>()));
        let mut terms: Vec<Fp> = (1..4).map(|k| slot_value(&a.cells[k])).collect();
        terms.push(slot_value(&b.cells[1]));
        assert_eq!(terms, smalls(&[1, 2, 3, 4]));
        assert!(a.coeffs[8].is_none() && b.coeffs[8].is_none());
    }

    let mut ctx = Context::new(7);
    let mut s = state_of(&[1, 2, 3, 4]);
    assert_eq!(s.apply_mds(&mut ctx, &m), Err(Error::ConstraintAllocation));
    assert_eq!(values_of(&s.state), smalls(&[1, 2, 3, 4]));
    assert!(s.state.iter().all(|l| l.cell.is_none()));
}

#[test]
fn apply_sparse_mds_uses_the_old_first_element() {
    let mut ctx = Context::new(100);
    let mut s = state_of(&[2, 3, 5, 7]);
    let m = SparseMDSMatrix { row: small(&[1, 10, 100, 1000]), col_hat: small(&[4, 5, 6]) };
    assert_eq!(s.apply_sparse_mds(&mut ctx, &m), Ok(()));
    assert_eq!(values_of(&s.state), smalls(&[7532, 2 * 4 + 3, 2 * 5 + 5, 2 * 6 + 7]));
    assert_eq!(ctx.offset, 2 + 3);
    assert_eq!(s.state[0].cell, Some(CellRef { row: 1, column: 4 }));
    for i in 1..4 {
        assert_eq!(s.state[i].cell, Some(CellRef { row: 1 + i, column: 4 }));
    }
    assert!(rows_are_consistent(&ctx, &[]));

    // the first element takes the whole state under `row`, in two rows
    let before = smalls(&[2, 3, 5, 7]);
    let first = &ctx.lines[0];
    assert_eq!(values_of(&[first.cells[1].unwrap(), first.cells[2].unwrap(), first.cells[3].unwrap()]), before[..3]);
    assert_eq!(
        (1..4).map(|k| coeff(&first.coeffs[k])).collect::<Vec<_>>(),
        smalls(&[1, 10, 100])
    );
    let second = &ctx.lines[1];
    assert_eq!(second.cells[0].unwrap().cell, Some(CellRef { row: 0, column: 4 }));
    assert_eq!((slot_value(&second.cells[1]), coeff(&second.coeffs[1])), (before[3], Fp::from(1000)));
    assert!(second.cells[2].is_none() && second.cells[3].is_none());
    // each other element takes the old first element with its factor, and itself
    for i in 1..4 {
        let line = &ctx.lines[1 + i];
        assert!(line.cells[0].is_none() && line.cells[3].is_none() && line.coeffs[8].is_none());
        assert_eq!((slot_value(&line.cells[1]), coeff(&line.coeffs[1])), (before[0], Fp::from(3 + i as u64)));
        assert_eq!((slot_value(&line.cells[2]), coeff(&line.coeffs[2])), (before[i], Fp::one()));
        assert_eq!(line.offset, 1 + i);
    }

    for rows in 0..5 {
        let mut ctx = Context::new(rows);
        let mut s = state_of(&[2, 3, 5, 7]);
        s.state[2].cell = Some(CellRef { row: 9, column: HELPER });
        assert_eq!(s.apply_sparse_mds(&mut ctx, &m), Err(Error::ConstraintAllocation));
        assert_eq!(values_of(&s.state), before);
        assert_eq!(
            s.state.iter().map(|l| l.cell).collect::<Vec<_>>(),
            vec![None, None, Some(CellRef { row: 9, column: HELPER }), None]
        );
    }
}

#[test]
fn rounds_are_an_sbox_and_a_mixing() {
    let m = vec![small(&[1, 1]), small(&[0, 2])];
    let mut ctx = Context::new(100);
    let mut s = state_of(&[1, 2]);
    assert_eq!(s.full_round(&mut ctx, &small(&[1, 1]), &m), Ok(()));
    assert_eq!(values_of(&s.state), smalls(&[2 + 33, 66]));
    assert_eq!(ctx.offset, 6 + 2);

    let sparse = SparseMDSMatrix { row: small(&[3, 1]), col_hat: small(&[10]) };
    let mut ctx = Context::new(100);
    let mut s = state_of(&[1, 2]);
    assert_eq!(s.partial_round(&mut ctx, &Fe::from_u64(1), &sparse), Ok(()));
    assert_eq!(values_of(&s.state), smalls(&[8, 22]));
    assert_eq!(ctx.offset, 3 + 1 + 1);
}

// ---------------------------------------------------------------------------
// The context

fn term(v: u64, w: u64) -> (Limb, Fe) {
    (free(Fp::from(v)), Fe::from_u64(w))
}

#[test]
fn a_weighted_sum_takes_three_terms_to_a_row() {
    for (n, rows) in [(0, 1), (1, 1), (2, 1), (3, 1), (4, 2), (6, 2), (7, 3), (9, 3), (10, 4)] {
        let mut ctx = Context::new(10);
        let terms: Vec<(Limb, Fe)> = (0..n).map(|i| term(i + 1, i + 2)).collect();
        let r = ctx.sum_with_constant(&terms, Some(Fe::from_u64(5))).unwrap();
        let expected: u64 = (0..n).map(|i| (i + 1) * (i + 2)).sum::<u64>() + 5;
        assert_eq!(to_fp(&r.value), Fp::from(expected));
        assert_eq!(ctx.offset, rows);
        assert_eq!(ctx.lines.len(), rows);
        assert_eq!(r.cell, Some(CellRef { row: rows - 1, column: 4 }));
        assert!(rows_are_consistent(&ctx, &[]));

        let mut ctx = Context::new(rows - 1);
        assert_eq!(ctx.sum_with_constant(&terms, None).map(|_| ()), Err(Error::ConstraintAllocation));
    }
}

#[test]
fn a_weighted_sum_carries_its_running_sum_as_a_copy() {
    let mut ctx = Context::new(10);
    let terms: Vec<(Limb, Fe)> = vec![term(1, 2), term(3, 4), term(5, 6), term(7, 8)];
    let r = ctx.sum_with_constant(&terms, None).unwrap();
    assert_eq!(to_fp(&r.value), Fp::from(2 + 12 + 30 + 56));
    let first = &ctx.lines[0];
    let second = &ctx.lines[1];
    assert!(first.cells[0].is_none() && first.coeffs[0].is_none());
    assert_eq!(to_fp(&first.cells[4].unwrap().value), Fp::from(44));
    assert_eq!(first.coeffs[8].map(|c| to_fp(&c)), None);
    let carried = second.cells[0].unwrap();
    assert_eq!(carried.cell, Some(CellRef { row: 0, column: 4 }));
    assert_eq!(to_fp(&carried.value), Fp::from(44));
    assert_eq!(second.coeffs[0].map(|c| to_fp(&c)), Some(Fp::one()));
    assert_eq!(to_fp(&second.cells[1].unwrap().value), Fp::from(7));
    assert!(second.cells[2].is_none() && second.cells[3].is_none());
}

#[test]
fn a_weighted_sum_reduces() {
    let mut ctx = Context::new(10);
    let minus_one = -Fp::one();
    let terms = vec![(free(minus_one), to_fe(minus_one)), (free(Fp::from(2)), to_fe(minus_one))];
    let r = ctx.sum_with_constant(&terms, Some(to_fe(Fp::from(1)))).unwrap();
    assert_eq!(to_fp(&r.value), Fp::zero());
    assert!(rows_are_consistent(&ctx, &[]));
}

#[test]
fn select_takes_the_first_for_a_set_flag() {
    let a = placed(1, Fp::from(10));
    let b = placed(2, Fp::from(20));
    for (f, expected, consistent) in [(0u64, 20u64, true), (1, 10, true), (2, 10, false)] {
        let mut ctx = Context::new(1);
        let flag = placed(3, Fp::from(f));
        let r = ctx.select(&flag, &a, &b, 9).unwrap();
        assert_eq!(to_fp(&r.value), Fp::from(expected));
        assert_eq!(r.cell, Some(CellRef { row: 0, column: 4 }));
        assert_eq!(ctx.lines[0].hint, 9);
        assert_eq!(ctx.offset, 1);
        assert_eq!(rows_are_consistent(&ctx, &[a, b, flag]), consistent);
        assert_eq!(ctx.select(&flag, &a, &b, 9).map(|_| ()), Err(Error::ConstraintAllocation));
    }
}

#[test]
fn a_constant_takes_one_row() {
    let mut ctx = Context::new(2);
    let c = to_fe(Fp::from(42));
    let l = ctx.assign_constant(&c).unwrap();
    assert_eq!(l.cell, Some(CellRef { row: 0, column: 0 }));
    assert_eq!(to_fp(&l.value), Fp::from(42));
    let z = ctx.assign_constant(&Fe::zero()).unwrap();
    assert_eq!(z.cell, Some(CellRef { row: 1, column: 0 }));
    assert!(rows_are_consistent(&ctx, &[]));
    assert_eq!(ctx.assign_constant(&c).map(|_| ()), Err(Error::ConstraintAllocation));
    assert_eq!(ctx.lines.len(), 2);
}

#[test]
fn a_line_hands_back_its_filled_slots_in_order() {
    let mut ctx = Context::new(3);
    let a = free(Fp::from(1));
    let b = placed(7, Fp::from(2));
    let cells = [None, Some(a), None, Some(b), None, Some(a)];
    let coeffs = [None, Some(Fe::one()), None, None, None, None, None, None, Some(to_fe(-Fp::one()))];
    let out = ctx.assign_line(cells, coeffs, 3).unwrap();
    let places: Vec<Option<CellRef>> = out.iter().map(|l| l.cell).collect();
    assert_eq!(
        places,
        vec![
            Some(CellRef { row: 0, column: 1 }),
            Some(CellRef { row: 0, column: 3 }),
            Some(CellRef { row: 1, column: 4 }),
        ]
    );
    assert_eq!(values_of(&out), smalls(&[1, 2, 1]));
    assert_eq!(ctx.offset, 1);
    assert_eq!(ctx.lines[0].cells[3].unwrap().cell, Some(CellRef { row: 7, column: HELPER }));

    // a row that fills the slot below needs that row too
    ctx.offset = 2;
    assert_eq!(ctx.assign_line(cells, coeffs, 0).map(|_| ()), Err(Error::ConstraintAllocation));
    assert_eq!(ctx.lines.len(), 1);
    let above = [None, Some(a), None, Some(b), None, None];
    assert_eq!(ctx.assign_line(above, coeffs, 0).map(|v| v.len()), Ok(2));
    assert_eq!(ctx.assign_line(above, coeffs, 0).map(|_| ()), Err(Error::ConstraintAllocation));
}

#[test]
fn equal_cells_are_recorded() {
    let mut ctx = Context::new(0);
    let a = placed(1, Fp::from(1));
    let b = placed(2, Fp::from(1));
    assert_eq!(ctx.constrain_equal(&a, &b), Ok(()));
    assert_eq!(ctx.copies, vec![(a.cell.unwrap(), b.cell.unwrap())]);
    assert_eq!(ctx.constrain_equal(&a, &free(Fp::one())), Err(Error::ConstraintAllocation));
    assert_eq!(ctx.constrain_equal(&free(Fp::one()), &b), Err(Error::ConstraintAllocation));
    assert_eq!(ctx.copies.len(), 1);
}

// ---------------------------------------------------------------------------
// Field elements

#[test]
fn small_integers_are_themselves() {
    assert_eq!(to_fp(&Fe::zero()), Fp::zero());
    assert_eq!(to_fp(&Fe::one()), Fp::one());
    assert_eq!(to_fp(&Fe::from_u64(u64::MAX)), Fp::from(u64::MAX));
    assert_eq!(Fe::from_u128(1u128 << 64).limbs, [0, 1, 0, 0]);
    assert_eq!(Fe::from_u128(u128::MAX).limbs, [u64::MAX, u64::MAX, 0, 0]);
    assert_eq!(to_fp(&Fe::from_u128(3 + (5u128 << 64))), Fp::from_raw([3, 5, 0, 0]));
    assert_eq!(Fe::from_limbs([1, 2, 3, 4]).limbs, [1, 2, 3, 4]);
}

#[test]
fn limbs_at_or_above_the_modulus_stand_for_their_remainder() {
    let modulus = [0x992d30ed00000001u64, 0x224698fc094cf91b, 0, 0x4000000000000000];
    let mut ctx = Context::new(4);
    let p = Limb::new(None, Fe::from_limbs(modulus));
    let zero = free(Fp::zero());
    // the modulus selects like zero
    let r = ctx.select(&p, &free(Fp::from(1)), &free(Fp::from(2)), 0).unwrap();
    assert_eq!(to_fp(&r.value), Fp::from(2));
    let r = ctx.select(&zero, &free(Fp::from(1)), &free(Fp::from(2)), 0).unwrap();
    assert_eq!(to_fp(&r.value), Fp::from(2));
    // and the modulus plus one like one
    let mut above = modulus;
    above[0] += 1;
    let q = Limb::new(None, Fe::from_limbs(above));
    let r = ctx.select(&q, &free(Fp::from(1)), &free(Fp::from(2)), 0).unwrap();
    assert_eq!(to_fp(&r.value), Fp::from(1));
    let r = ctx.sum_with_constant(&vec![(q, Fe::from_limbs(above))], Some(Fe::from_limbs(modulus))).unwrap();
    assert_eq!(to_fp(&r.value), Fp::one());
}
