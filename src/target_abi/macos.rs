//! The MacOS ABI.
use vstd::prelude::*;

use crate::instruction::{ops_view, Effects, Instruction, Register64};
use crate::target_abi::{
    call, exit_ops, linker_info_of, local_label, read_byte_ops, read_instructions, strings,
    write_call, write_instructions, write_ops, LinkerInfo, Operations, ABI,
};
use crate::text::{owned, push_decimal, push_str};

verus! {

/// The operations of the MacOS ABI.
#[derive(Debug)]
pub struct Interface {
    next_label: usize,
}

impl Interface {
    /// Operations that have handed out no label yet.
    pub fn new() -> (r: Self)
        ensures
            r.labels_used() == 0,
    {
        Interface { next_label: 0 }
    }

    /// How many local labels were handed out.
    pub closed spec fn labels_used(&self) -> nat {
        self.next_label as nat
    }

    fn get_label(&mut self) -> (r: String)
        requires
            old(self).labels_used() < usize::MAX,
        ensures
            r@ == local_label(ABI::MacOS, old(self).labels_used()),
            final(self).labels_used() == old(self).labels_used() + 1,
    {
        let mut result = String::new();
        push_str(&mut result, ".interface_macos");
        push_decimal(&mut result, self.next_label as u64);
        self.next_label = self.next_label + 1;
        assert(result@ =~= local_label(ABI::MacOS, old(self).labels_used()));
        result
    }
}

impl Operations for Interface {
    open spec fn abi(&self) -> ABI {
        ABI::MacOS
    }

    open spec fn labels_used(&self) -> nat {
        Interface::labels_used(self)
    }

    fn linker_info(&self) -> (r: LinkerInfo) {
        let r = LinkerInfo {
            entrypoint: owned("_main"),
            libraries: strings(&["libc"]),
            externs: strings(&["_read", "_write", "_exit"]),
            object_format: owned("macho64"),
            linker_cmd: owned("ld"),
            linker_args: strings(&["-lSystem", "-macosx_version_min", "10.10.0"]),
        };
        assert(r@.libraries =~= linker_info_of(ABI::MacOS).libraries);
        assert(r@.externs =~= linker_info_of(ABI::MacOS).externs);
        assert(r@.linker_args =~= linker_info_of(ABI::MacOS).linker_args);
        r
    }

    fn startup(&mut self) -> (r: Vec<Instruction>) {
        Vec::new()
    }

    fn exit(&mut self) -> (r: Vec<Instruction>) {
        let r = vec![
            Instruction::MovImm(Register64::rdi, 0),
            Instruction::BlackBox(owned("call _exit"), Effects::volatile()),
        ];
        assert(ops_view(r@) =~= exit_ops(ABI::MacOS));
        r
    }

    fn read_byte(&mut self, pointer: Register64) -> (r: Vec<Instruction>) {
        let label_end = self.get_label();
        read_instructions(Instruction::NamedBlackBox(owned("read"), owned("call _read"), call()), pointer, label_end)
    }

    fn write_bytes(&mut self, pointer: Register64, count: u64) -> (r: Vec<Instruction>) {
        write_instructions("call _write", pointer, count)
    }
}

} // verus!
