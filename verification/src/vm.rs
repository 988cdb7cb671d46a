//! The virtual machine's loader.
pub mod pre_run;

use vstd::prelude::*;
use std::collections::HashMap;
use pre_run::{PreRunError, pre_run, pre_run_spec, instrs_of, lines_of, code_of, well_formed};

verus! {

/// The instructions of a program laid end to end.
pub open spec fn flatten(q: Seq<Seq<i32>>) -> Seq<i32>
    decreases q.len(),
{
    if q.len() == 0 {
        Seq::empty()
    } else {
        flatten(q.drop_last()) + q.last()
    }
}

/// The machine: its memories, its program counter and its loaded bytecode.
pub struct VM {
    memory: HashMap<i32, u8>,
    memory_pd: HashMap<i32, u32>,
    pc: usize,
    bytecode: Vec<i32>,
}

impl VM {
    /// The loaded bytecode.
    pub closed spec fn code(&self) -> Seq<i32> {
        self.bytecode@
    }

    /// The bit memory, from address to value.
    pub closed spec fn bits(&self) -> Map<i32, u8> {
        self.memory@
    }

    /// The pointer memory, from dynamic label to value.
    pub closed spec fn pointers(&self) -> Map<i32, u32> {
        self.memory_pd@
    }

    /// The program counter.
    pub closed spec fn counter(&self) -> nat {
        self.pc as nat
    }

    /// A machine with empty memories, its counter at 0 and nothing loaded.
    pub fn new() -> (vm: Self)
        ensures
            vm.code() == Seq::<i32>::empty(),
            vm.bits() == Map::<i32, u8>::empty(),
            vm.pointers() == Map::<i32, u32>::empty(),
            vm.counter() == 0,
    {
        let vm = VM { memory: HashMap::new(), memory_pd: HashMap::new(), pc: 0, bytecode: Vec::new() };
        proof {
            assert(vm.bits() =~= Map::<i32, u8>::empty());
            assert(vm.pointers() =~= Map::<i32, u32>::empty());
        }
        vm
    }

    /// Loads a program: runs [`pre_run`] and lays the result out as one
    /// sequence of integers.
    pub fn run(&mut self, program: Vec<(Vec<i32>, i32)>) -> (r: Result<(), PreRunError>)
        requires
            well_formed(instrs_of(program@)),
            program@.len() < i32::MAX,
        ensures
            match pre_run_spec(instrs_of(program@), lines_of(program@)) {
                Ok((q, _)) => r is Ok && final(self).code() == flatten(q),
                Err(e) => r matches Err(e2) && e2@ == e && final(self).code() == old(self).code(),
            },
    {
        let (new_program, _lines) = pre_run(program)?;
        let mut bytecode: Vec<i32> = Vec::new();
        let mut i: usize = 0;
        proof {
            assert(code_of(new_program@).take(0) =~= Seq::<Seq<i32>>::empty());
        }
        while i < new_program.len()
            invariant
                i <= new_program@.len(),
                bytecode@ == flatten(code_of(new_program@).take(i as int)),
            decreases new_program.len() - i,
        {
            let instr = &new_program[i];
            let ghost before = bytecode@;
            let mut k: usize = 0;
            while k < instr.len()
                invariant
                    k <= instr@.len(),
                    bytecode@ == before + instr@.take(k as int),
                decreases instr.len() - k,
            {
                bytecode.push(instr[k]);
                proof {
                    assert(bytecode@ =~= before + instr@.take(k + 1));
                }
                k = k + 1;
            }
            proof {
                assert(instr@.take(k as int) =~= instr@);
                assert(code_of(new_program@).take(i + 1).drop_last() =~= code_of(new_program@).take(i as int));
            }
            i = i + 1;
        }
        proof {
            assert(code_of(new_program@).take(i as int) =~= code_of(new_program@));
        }
        self.bytecode = bytecode;
        Ok(())
    }
}

/// Loads the bytecode into a new machine and gives what it loaded.
pub fn start(bytecode: Vec<(Vec<i32>, i32)>) -> (r: Result<Vec<i32>, PreRunError>)
    requires
        well_formed(instrs_of(bytecode@)),
        bytecode@.len() < i32::MAX,
    ensures
        match pre_run_spec(instrs_of(bytecode@), lines_of(bytecode@)) {
            Ok((q, _)) => r matches Ok(v) && v@ == flatten(q),
            Err(e) => r matches Err(e2) && e2@ == e,
        },
{
    let mut vm = VM::new();
    vm.run(bytecode)?;
    Ok(vm.bytecode)
}

} // verus!
