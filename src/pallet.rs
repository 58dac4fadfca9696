use vstd::prelude::*;
use crate::assets::{Asset, AssetList};
use crate::executor::{Execution, Executor, prepared_post};
use crate::location::Location;
use crate::program::{Instruction, Program, Ticket};
use crate::weight::Weight;

verus! {

/// Weight of the two dispatchables.
pub trait WeightInfo {
    fn trap_assets() -> Weight;

    fn claim_assets() -> Weight;
}

impl WeightInfo for () {
    fn trap_assets() -> (r: Weight)
        ensures
            r.ref_time == 0 && r.proof_size == 0,
    {
        Weight::zero()
    }

    fn claim_assets() -> (r: Weight)
        ensures
            r.ref_time == 0 && r.proof_size == 0,
    {
        Weight::zero()
    }
}

/// Weights for tests.
pub struct TestWeightInfo;

impl WeightInfo for TestWeightInfo {
    fn trap_assets() -> (r: Weight)
        ensures
            r.ref_time == 1_000_000 && r.proof_size == 1_000_000,
    {
        Weight::from_parts(1_000_000, 1_000_000)
    }

    fn claim_assets() -> (r: Weight)
        ensures
            r.ref_time == 1_000_000 && r.proof_size == 1_000_000,
    {
        Weight::from_parts(1_000_000, 1_000_000)
    }
}

/// Weight limit for programs that the dispatchables run.
pub const EXECUTION_LIMIT: u64 = 2_000_000_000_000;

/// Why a dispatchable was refused.
#[derive(Clone, Copy, Debug, PartialEq, Eq, Structural)]
pub enum Error {
    /// The origin could not be converted to a location.
    BadOrigin,
}

/// Dispatchables that build a program and run it on the caller's behalf.
#[derive(Debug)]
pub struct Pallet {
    pub executor: Executor,
}

/// The program that withdraws each entry of `assets` from the caller and leaves them in the
/// holding, so that they are trapped.
pub open spec fn trap_program(p: &Program, version: u32, assets: &AssetList) -> bool {
    &&& p.version == version
    &&& p.instructions@.len() == assets@.len()
    &&& forall|k: int| 0 <= k < assets@.len() ==> p.instructions@[k] == Instruction::WithdrawAsset(#[trigger] assets@[k])
}

/// The program that claims `assets` under `ticket` and deposits them to the caller.
pub open spec fn claim_program(p: &Program, version: u32, assets: &AssetList, ticket: Ticket, who: (u8, Seq<crate::location::Junction>)) -> bool {
    &&& p.version == version
    &&& p.instructions@.len() == assets@.len() + 1
    &&& p.instructions@[0] matches Instruction::ClaimAsset { assets: l, ticket: t } && l@ == assets@ && t == ticket
    &&& forall|k: int| 0 <= k < assets@.len() ==> deposits_to(p.instructions@[k + 1], #[trigger] assets@[k], who)
}

/// `i` deposits `a` to `who`.
pub open spec fn deposits_to(i: Instruction, a: Asset, who: (u8, Seq<crate::location::Junction>)) -> bool {
    i matches Instruction::DepositAsset { asset, beneficiary } && asset == a && beneficiary@ == who
}

impl Pallet {
    pub open spec fn wf(&self) -> bool {
        self.executor.wf()
    }

    /// Runs `message` on behalf of `origin`; fails when there is no origin to run it for.
    pub fn do_execute_xcm(&mut self, origin: Option<Location>, message: &Program) -> (r: Result<Execution, Error>)
        requires
            old(self).wf(),
        ensures
            final(self).wf(),
            (r is Err) == (origin is None),
            origin is None ==> *final(self) == *old(self),
            r matches Ok(x) ==> origin matches Some(o) && prepared_post(&old(self).executor, &final(self).executor, o@, message,
                Weight { ref_time: EXECUTION_LIMIT, proof_size: EXECUTION_LIMIT }, &x),
    {
        match origin {
            None => Err(Error::BadOrigin),
            Some(o) => Ok(self.executor.prepare_and_execute(o, message, Weight::from_parts(EXECUTION_LIMIT, EXECUTION_LIMIT))),
        }
    }

    /// Runs a program that withdraws `assets` from the caller and leaves them to be trapped.
    pub fn trap_assets(&mut self, origin: Option<Location>, assets: &AssetList) -> (r: Result<(), Error>)
        requires
            old(self).wf(),
        ensures
            final(self).wf(),
            (r is Err) == (origin is None),
            origin is None ==> *final(self) == *old(self),
            origin matches Some(o) ==> exists|p: Program, x: Execution| trap_program(&p, old(self).executor.config.local_version, assets)
                && #[trigger] prepared_post(&old(self).executor, &final(self).executor, o@, &p,
                    Weight { ref_time: EXECUTION_LIMIT, proof_size: EXECUTION_LIMIT }, &x),
    {
        let mut instructions: Vec<Instruction> = Vec::new();
        let mut k: usize = 0;
        while k < assets.items.len()
            invariant
                k <= assets@.len(),
                instructions@.len() == k,
                forall|j: int| 0 <= j < k ==> instructions@[j] == Instruction::WithdrawAsset(#[trigger] assets@[j]),
            decreases assets@.len() - k,
        {
            instructions.push(Instruction::WithdrawAsset(assets.items[k]));
            k = k + 1;
        }
        let message = Program { version: self.executor.config.local_version, instructions };
        match self.do_execute_xcm(origin, &message) {
            Ok(_) => Ok(()),
            Err(e) => Err(e),
        }
    }

    /// Runs a program that claims `assets` trapped under `ticket` and deposits them to the caller.
    pub fn claim_assets(&mut self, origin: Option<Location>, assets: &AssetList, ticket: Ticket) -> (r: Result<(), Error>)
        requires
            old(self).wf(),
        ensures
            final(self).wf(),
            (r is Err) == (origin is None),
            origin is None ==> *final(self) == *old(self),
            origin matches Some(o) ==> exists|p: Program, x: Execution| claim_program(&p, old(self).executor.config.local_version, assets, ticket, o@)
                && #[trigger] prepared_post(&old(self).executor, &final(self).executor, o@, &p,
                    Weight { ref_time: EXECUTION_LIMIT, proof_size: EXECUTION_LIMIT }, &x),
    {
        match origin {
            None => Err(Error::BadOrigin),
            Some(o) => {
                let mut instructions: Vec<Instruction> = Vec::new();
                instructions.push(Instruction::ClaimAsset { assets: assets.copy(), ticket });
                let mut k: usize = 0;
                while k < assets.items.len()
                    invariant
                        k <= assets@.len(),
                        instructions@.len() == k + 1,
                        instructions@[0] matches Instruction::ClaimAsset { assets: l, ticket: t } && l@ == assets@ && t == ticket,
                        forall|j: int| 0 <= j < k ==> deposits_to(instructions@[j + 1], #[trigger] assets@[j], o@),
                    decreases assets@.len() - k,
                {
                    let ghost before = instructions@;
                    instructions.push(Instruction::DepositAsset { asset: assets.items[k], beneficiary: o.copy() });
                    proof {
                        assert forall|j: int| 0 <= j < k + 1 implies deposits_to(instructions@[j + 1], #[trigger] assets@[j], o@) by {
                            if j < k { assert(instructions@[j + 1] == before[j + 1]); }
                        }
                        assert(instructions@[0] == before[0]);
                    }
                    k = k + 1;
                }
                let message = Program { version: self.executor.config.local_version, instructions };
                let ghost who = o@;
                match self.do_execute_xcm(Some(o), &message) {
                    Ok(_) => {
                        proof {
                            assert(claim_program(&message, old(self).executor.config.local_version, assets, ticket, who));
                        }
                        Ok(())
                    },
                    Err(e) => Err(e),
                }
            },
        }
    }
}

} // verus!
