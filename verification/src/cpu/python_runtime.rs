//! The Python interpreter of a target: found once, and handed to the BPF programs so
//! that they walk its frames at each sample.

use crate::cpu::bpf_records::SismoPyCfg;
use vstd::prelude::*;

verus! {

/// Where the fields that lead to a frame's name stand in an interpreter.
#[derive(Clone, Copy, PartialEq, Eq, Structural, Debug)]
pub struct PyDebugOffsets {
    pub interpreters_head: u64,
    pub threads_head: u64,
    pub current_frame: u64,
    pub frame_previous: u64,
    pub frame_executable: u64,
    pub code_qualname: u64,
    pub unicode_length: u64,
    pub unicode_asciiobject_size: u64,
}

/// What the BPF programs are told of an interpreter at `avma`.
pub open spec fn py_cfg(avma: u64, offs: PyDebugOffsets) -> SismoPyCfg {
    SismoPyCfg {
        runtime: avma,
        interpreters_head: offs.interpreters_head,
        threads_head: offs.threads_head,
        current_frame: offs.current_frame,
        frame_previous: offs.frame_previous,
        frame_executable: offs.frame_executable,
        code_qualname: offs.code_qualname,
        unicode_length: offs.unicode_length,
        unicode_data: offs.unicode_asciiobject_size,
    }
}

/// Whether an interpreter was looked for, and what was found.
#[derive(Clone, Copy, Debug)]
pub struct PythonRuntime {
    pub tried: bool,
    pub found: Option<(u64, PyDebugOffsets)>,
}

impl PythonRuntime {
    pub fn new() -> (r: Self)
        ensures
            r == (PythonRuntime { tried: false, found: None }),
    {
        PythonRuntime { tried: false, found: None }
    }

    /// Whether to look for an interpreter now: at the first call, where the target
    /// runs Python and its mappings are known. An interpreter does not change, so
    /// there is no second try.
    pub fn ensure_python_runtime(&mut self, runs_python: bool, has_maps: bool) -> (look: bool)
        ensures
            look == (!old(self).tried && runs_python && has_maps),
            *final(self) == (PythonRuntime { tried: true, ..*old(self) }),
    {
        let look: bool = !self.tried && runs_python && has_maps;
        self.tried = true;
        look
    }

    /// An interpreter was found, or not. What to hand to the BPF programs, unless
    /// the setting switches their walk off or they have no place for it.
    pub fn located(
        &mut self,
        found: Option<(u64, PyDebugOffsets)>,
        setting_is_zero: bool,
        py_cfg_fd: i32,
    ) -> (r: Option<SismoPyCfg>)
        ensures
            *final(self) == (PythonRuntime { found, ..*old(self) }),
            r == (match found {
                Some((avma, offs)) if !setting_is_zero && py_cfg_fd >= 0 => Some(
                    py_cfg(avma, offs),
                ),
                _ => None,
            }),
    {
        self.found = found;
        if setting_is_zero || py_cfg_fd < 0 {
            return None;
        }
        match found {
            Some((avma, offs)) => Some(
                SismoPyCfg {
                    runtime: avma,
                    interpreters_head: offs.interpreters_head,
                    threads_head: offs.threads_head,
                    current_frame: offs.current_frame,
                    frame_previous: offs.frame_previous,
                    frame_executable: offs.frame_executable,
                    code_qualname: offs.code_qualname,
                    unicode_length: offs.unicode_length,
                    unicode_data: offs.unicode_asciiobject_size,
                },
            ),
            None => None,
        }
    }
}

impl Default for PythonRuntime {
    fn default() -> (r: Self)
        ensures
            r == (PythonRuntime { tried: false, found: None }),
    {
        PythonRuntime::new()
    }
}

} // verus!
