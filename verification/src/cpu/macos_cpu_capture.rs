//! The worker that samples the threads of one process in turn: its set-up, the
//! threads it knows, and what it counts.

use crate::bytes;
use crate::proto::sismo_config;
use crate::proto::sismo_config::{config_extract, cpu_decode};
use crate::proto::wire;
use crate::worker_sdk::read_u64;
use std::collections::HashMap;
use vstd::prelude::*;

verus! {

/// One sample in a millisecond, where the set-up does not say.
pub const DEFAULT_INTERVAL_NS: u64 = 1_000_000;

pub const THREAD_IDENTIFIER_INFO_BYTES: usize = 24;

/// The id of a thread in its buffer, where the kernel filled it; else 0.
pub fn thread_kernel_tid(filled: bool, buf: &[u8]) -> (r: u64)
    requires
        buf@.len() == THREAD_IDENTIFIER_INFO_BYTES,
    ensures
        r == (if filled {
            bytes::le_u64(buf@, 0)
        } else {
            0
        }),
{
    if !filled {
        return 0;
    }
    read_u64(buf, 0)
}

/// What the worker reports when it shuts down.
#[derive(Clone, Copy, PartialEq, Eq, Structural, Debug)]
pub struct CpuStats {
    pub samples: u64,
    pub active_samples: u64,
}

pub struct CpuCapture {
    pub config_interval_ns: u64,
    pub setup_target_pid: u32,
    pub setup_interval_us: u32,
    /// The id and the last CPU time of each thread, by its port.
    pub threads: HashMap<u32, (u64, u64)>,
    pub threadlist_was_ok: bool,
    pub stats: CpuStats,
}

/// What to say of the list of threads: that it could not be read, or can be again.
#[derive(Clone, Copy, PartialEq, Eq, Structural, Debug)]
pub enum ListNote {
    Quiet,
    Failed,
    Recovered,
}

impl CpuCapture {
    /// A worker with a default interval; 0 for the usual one.
    pub fn new(default_interval_ns: u64) -> (c: Self)
        ensures
            c.config_interval_ns == (if default_interval_ns != 0 {
                default_interval_ns
            } else {
                DEFAULT_INTERVAL_NS
            }),
            c.setup_target_pid == 0,
            c.setup_interval_us == 0,
            c.threads@ == Map::<u32, (u64, u64)>::empty(),
            c.threadlist_was_ok,
            c.stats == (CpuStats { samples: 0, active_samples: 0 }),
    {
        let interval: u64 = if default_interval_ns != 0 {
            default_interval_ns
        } else {
            DEFAULT_INTERVAL_NS
        };
        let c = CpuCapture {
            config_interval_ns: interval,
            setup_target_pid: 0,
            setup_interval_us: 0,
            threads: HashMap::new(),
            threadlist_was_ok: true,
            stats: CpuStats { samples: 0, active_samples: 0 },
        };
        assert(c.threads@ =~= Map::empty());
        c
    }

    /// Take in the set-up; one without a configuration changes nothing.
    pub fn on_setup(&mut self, dsc: &[u8])
        ensures
            ({
                let c = sismo_config::first_len(
                    wire::fields(dsc@),
                    sismo_config::DSC_SISMO_CONFIG_FIELD,
                );
                match c {
                    None => *final(self) == *old(self),
                    Some(b) => *final(self) == (CpuCapture {
                        setup_target_pid: (sismo_config::config_value(b, 1)
                            % 0x1_0000_0000) as u32,
                        setup_interval_us: (sismo_config::config_value(b, 2)
                            % 0x1_0000_0000) as u32,
                        ..*old(self)
                    }),
                }
            }),
    {
        if let Some(b) = config_extract(dsc) {
            let (pid, interval_us) = cpu_decode(b);
            self.setup_target_pid = pid;
            self.setup_interval_us = interval_us;
        }
    }

    /// The target and the interval; None where no target is set, and the worker
    /// parks.
    pub fn resolve(&self) -> (r: Option<(u32, u64)>)
        ensures
            r == (if self.setup_target_pid == 0 {
                None
            } else if self.setup_interval_us != 0 {
                Some((self.setup_target_pid, (self.setup_interval_us * 1_000) as u64))
            } else {
                Some((self.setup_target_pid, self.config_interval_ns))
            }),
    {
        if self.setup_target_pid == 0 {
            return None;
        }
        let interval: u64 = if self.setup_interval_us != 0 {
            self.setup_interval_us as u64 * 1_000
        } else {
            self.config_interval_ns
        };
        Some((self.setup_target_pid, interval))
    }

    /// Take note of whether the list of threads could be read. A failure is told
    /// once, until it can be read again.
    pub fn note_list(&mut self, ok: bool) -> (n: ListNote)
        ensures
            *final(self) == (CpuCapture { threadlist_was_ok: ok, ..*old(self) }),
            n == (if ok == old(self).threadlist_was_ok {
                ListNote::Quiet
            } else if ok {
                ListNote::Recovered
            } else {
                ListNote::Failed
            }),
    {
        let was: bool = self.threadlist_was_ok;
        self.threadlist_was_ok = ok;
        if ok == was {
            ListNote::Quiet
        } else if ok {
            ListNote::Recovered
        } else {
            ListNote::Failed
        }
    }

    /// Whether a thread is new.
    pub fn is_new(&self, port: u32) -> (r: bool)
        ensures
            r == !self.threads@.dom().contains(port),
    {
        !self.threads.contains_key(&port)
    }

    /// The id and the last CPU time of a thread that is about to be sampled; where
    /// it is new they are what was read of it.
    pub fn begin_sample(&mut self, port: u32, read_tid: u64, read_cpu_us: Option<u64>) -> (r: (
        u64,
        u64,
    ))
        ensures
            ({
                let t = old(self).threads@;
                let entry = if t.dom().contains(port) {
                    t[port]
                } else {
                    (
                        read_tid,
                        match read_cpu_us {
                            Some(c) => c,
                            None => 0,
                        },
                    )
                };
                &&& r == entry
                &&& final(self).threads@ == t.insert(port, entry)
            }),
            final(self).stats == (CpuStats {
                samples: vstd::wrapping::u64_specs::wrapping_add(old(self).stats.samples, 1),
                ..old(self).stats
            }),
            final(self).config_interval_ns == old(self).config_interval_ns,
            final(self).setup_target_pid == old(self).setup_target_pid,
            final(self).setup_interval_us == old(self).setup_interval_us,
            final(self).threadlist_was_ok == old(self).threadlist_was_ok,
    {
        let ghost t = self.threads@;
        self.stats.samples = self.stats.samples.wrapping_add(1);
        let known: Option<(u64, u64)> = match self.threads.get(&port) {
            Some(e) => Some(*e),
            None => None,
        };
        match known {
            Some(e) => {
                assert(self.threads@ =~= t.insert(port, e));
                e
            },
            None => {
                let cpu: u64 = match read_cpu_us {
                    Some(c) => c,
                    None => 0,
                };
                self.threads.insert(port, (read_tid, cpu));
                (read_tid, cpu)
            },
        }
    }

    /// Keep what a sample found.
    pub fn end_sample(&mut self, port: u32, tid: u64, new_cpu_us: u64, active: bool)
        ensures
            final(self).threads@ == old(self).threads@.insert(port, (tid, new_cpu_us)),
            final(self).stats == (CpuStats {
                active_samples: if active {
                    vstd::wrapping::u64_specs::wrapping_add(old(self).stats.active_samples, 1)
                } else {
                    old(self).stats.active_samples
                },
                ..old(self).stats
            }),
            final(self).config_interval_ns == old(self).config_interval_ns,
            final(self).setup_target_pid == old(self).setup_target_pid,
            final(self).setup_interval_us == old(self).setup_interval_us,
            final(self).threadlist_was_ok == old(self).threadlist_was_ok,
    {
        self.threads.insert(port, (tid, new_cpu_us));
        if active {
            self.stats.active_samples = self.stats.active_samples.wrapping_add(1);
        }
    }
}

} // verus!
