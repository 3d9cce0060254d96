//! The hardware that inference runs on, as told by the system's own tools.

use crate::scan::{
    after_line, after_word, begins_with, characters, contains_text, find_char, first_line,
    first_word, mentions, next_at, numeral, parse_number, split_word, starts_with_text, trim_range,
    trimmed,
};
use crate::text::{append_decimal, decimal, numbered_twice};
use vstd::prelude::*;
use vstd::slice::slice_subrange;
use vstd::string::*;

verus! {

/// Hardware that a backend can execute on.
#[derive(Debug, PartialEq, Eq)]
pub enum ExecutionSurface {
    NvidiaGraceBlackwell { model: String, unified_memory_gb: usize },
    NvidiaCuda { gpu_name: String, vram_gb: usize },
    AppleSilicon { chip_name: String, unified_memory_gb: usize },
    GenericLinuxCpu { cpu_cores: usize, total_ram_gb: usize },
    GenericUnixCpu { cpu_cores: usize, total_ram_gb: usize },
}

/// What an [`ExecutionSurface`] says.
pub enum SurfaceState {
    NvidiaGraceBlackwell { model: Seq<char>, unified_memory_gb: usize },
    NvidiaCuda { gpu_name: Seq<char>, vram_gb: usize },
    AppleSilicon { chip_name: Seq<char>, unified_memory_gb: usize },
    GenericLinuxCpu { cpu_cores: usize, total_ram_gb: usize },
    GenericUnixCpu { cpu_cores: usize, total_ram_gb: usize },
}

impl View for ExecutionSurface {
    type V = SurfaceState;

    open spec fn view(&self) -> SurfaceState {
        match self {
            ExecutionSurface::NvidiaGraceBlackwell { model, unified_memory_gb } => {
                SurfaceState::NvidiaGraceBlackwell {
                    model: model@,
                    unified_memory_gb: *unified_memory_gb,
                }
            },
            ExecutionSurface::NvidiaCuda { gpu_name, vram_gb } => SurfaceState::NvidiaCuda {
                gpu_name: gpu_name@,
                vram_gb: *vram_gb,
            },
            ExecutionSurface::AppleSilicon { chip_name, unified_memory_gb } => {
                SurfaceState::AppleSilicon {
                    chip_name: chip_name@,
                    unified_memory_gb: *unified_memory_gb,
                }
            },
            ExecutionSurface::GenericLinuxCpu { cpu_cores, total_ram_gb } => {
                SurfaceState::GenericLinuxCpu { cpu_cores: *cpu_cores, total_ram_gb: *total_ram_gb }
            },
            ExecutionSurface::GenericUnixCpu { cpu_cores, total_ram_gb } => {
                SurfaceState::GenericUnixCpu { cpu_cores: *cpu_cores, total_ram_gb: *total_ram_gb }
            },
        }
    }
}

/// The surface that a listing of "name, memory in MiB" lines tells of: the GPU of its
/// first line, where it has one.
pub open spec fn nvidia_surface(listing: Seq<char>) -> Option<SurfaceState> {
    if listing.len() == 0 {
        None
    } else {
        let line = first_line(listing);
        let comma = next_at(line, ',', 0);
        let name = trimmed(line.subrange(0, comma));
        if mentions(name, "GB10"@) || mentions(name, "Grace Blackwell"@) {
            Some(SurfaceState::NvidiaGraceBlackwell { model: name, unified_memory_gb: 121 })
        } else {
            Some(SurfaceState::NvidiaCuda { gpu_name: name, vram_gb: listed_vram_gb(line) })
        }
    }
}

/// The memory in the second field of a line, in GiB; 24 where none is given.
pub open spec fn listed_vram_gb(line: Seq<char>) -> usize {
    let comma = next_at(line, ',', 0);
    if comma < line.len() {
        let field = trimmed(line.subrange(comma + 1, next_at(line, ',', comma + 1)));
        match numeral(first_word(field), usize::MAX as nat) {
            Some(mb) => (mb / 1024) as usize,
            None => 24,
        }
    } else {
        24
    }
}

/// The total in a line of a memory report, in GiB.
pub open spec fn reported_gb(line: Seq<char>) -> Option<usize> {
    if begins_with(line, "MemTotal:"@) {
        match numeral(first_word(after_word(line)), usize::MAX as nat) {
            Some(kb) => Some((kb / 0x10_0000) as usize),
            None => None,
        }
    } else {
        None
    }
}

/// The line break lies within the text.
pub proof fn lemma_next_at(s: Seq<char>, c: char, from: int)
    requires
        0 <= from <= s.len(),
    ensures
        from <= next_at(s, c, from) <= s.len(),
    decreases s.len() - from,
{
    if from < s.len() && s[from] != c {
        lemma_next_at(s, c, from + 1);
    }
}

/// The last total that a memory report gives, in GiB; `otherwise` where it gives none.
pub open spec fn memory_gb(report: Seq<char>, otherwise: usize) -> usize
    decreases report.len(),
{
    if report.len() == 0 {
        otherwise
    } else {
        proof {
            lemma_next_at(report, '\n', 0);
        }
        memory_gb(
            after_line(report),
            match reported_gb(first_line(report)) {
                Some(gb) => gb,
                None => otherwise,
            },
        )
    }
}

/// The name of a chip: what was reported, trimmed, unless that is empty.
pub open spec fn chip_name(brand: Option<Seq<char>>) -> Seq<char> {
    match brand {
        Some(b) => if trimmed(b).len() > 0 {
            trimmed(b)
        } else {
            "Apple Silicon"@
        },
        None => "Apple Silicon"@,
    }
}

/// The memory of an Apple machine, in GiB; 16 where no number was reported.
pub open spec fn apple_gb(size: Option<Seq<char>>) -> usize {
    match size {
        Some(s) => match numeral(trimmed(s), u64::MAX as nat) {
            Some(bytes) => (bytes / 0x4000_0000) as usize,
            None => 16,
        },
        None => 16,
    }
}

/// What the operating system says of the machine, where it says it: on macOS the chip brand
/// and the memory size in bytes, elsewhere the core count, on Linux the memory report.
pub enum MachineReport<'a> {
    MacOs { brand: Option<&'a str>, size: Option<&'a str> },
    Linux { cores: Option<usize>, memory: Option<&'a str> },
    OtherUnix { cores: Option<usize> },
}

/// The text that was reported, if any was.
pub open spec fn told(report: Option<&str>) -> Option<Seq<char>> {
    match report {
        Some(text) => Some(text@),
        None => None,
    }
}

/// The surface of a machine without an NVIDIA GPU. Where they are not known, a Linux machine
/// has 8 cores and 16 GiB, another Unix machine 4 cores; the latter has 8 GiB.
pub open spec fn machine_surface(machine: MachineReport) -> SurfaceState {
    match machine {
        MachineReport::MacOs { brand, size } => SurfaceState::AppleSilicon {
            chip_name: chip_name(told(brand)),
            unified_memory_gb: apple_gb(told(size)),
        },
        MachineReport::Linux { cores, memory } => SurfaceState::GenericLinuxCpu {
            cpu_cores: match cores {
                Some(n) => n,
                None => 8,
            },
            total_ram_gb: match memory {
                Some(t) => memory_gb(t@, 16),
                None => 16,
            },
        },
        MachineReport::OtherUnix { cores } => SurfaceState::GenericUnixCpu {
            cpu_cores: match cores {
                Some(n) => n,
                None => 4,
            },
            total_ram_gb: 8,
        },
    }
}

/// The surface that a machine tells of: its GPU where a listing names one, else what the
/// operating system says.
pub open spec fn detected(listing: Option<&str>, machine: MachineReport) -> SurfaceState {
    if listing is Some && nvidia_surface(listing->0@) is Some {
        nvidia_surface(listing->0@)->0
    } else {
        machine_surface(machine)
    }
}

impl SurfaceState {
    /// The name that a surface is shown under.
    pub open spec fn shown(self) -> Seq<char> {
        match self {
            SurfaceState::NvidiaGraceBlackwell { model, unified_memory_gb } => model + " ("@
                + decimal(unified_memory_gb as nat) + " GB Unified Memory)"@,
            SurfaceState::NvidiaCuda { gpu_name, vram_gb } => gpu_name + " ("@ + decimal(
                vram_gb as nat,
            ) + " GB VRAM)"@,
            SurfaceState::AppleSilicon { chip_name, unified_memory_gb } => chip_name + " ("@
                + decimal(unified_memory_gb as nat) + " GB Unified Memory)"@,
            SurfaceState::GenericLinuxCpu { cpu_cores, total_ram_gb } => "Linux CPU ("@ + decimal(
                cpu_cores as nat,
            ) + " Cores, "@ + decimal(total_ram_gb as nat) + " GB RAM)"@,
            SurfaceState::GenericUnixCpu { cpu_cores, total_ram_gb } => "Unix CPU ("@ + decimal(
                cpu_cores as nat,
            ) + " Cores, "@ + decimal(total_ram_gb as nat) + " GB RAM)"@,
        }
    }

    pub open spec fn is_gpu(self) -> bool {
        self is NvidiaGraceBlackwell || self is NvidiaCuda
    }
}

/// `name (N unit)`.
fn named(name: &String, n: usize, tail: &str) -> (r: String)
    ensures
        r@ == name@ + " ("@ + decimal(n as nat) + tail@,
{
    let mut r = name.clone();
    r.append(" (");
    append_decimal(&mut r, n as u64);
    r.append(tail);
    r
}

/// The memory of the second field of a line, in GiB; 24 where none is given.
fn read_vram_gb(line: &[char]) -> (r: usize)
    ensures
        r == listed_vram_gb(line@),
{
    let comma: usize = find_char(line, ',', 0);
    if comma >= line.len() {
        return 24;
    }
    let end: usize = find_char(line, ',', comma + 1);
    let field = slice_subrange(line, comma + 1, end);
    let (a, b) = trim_range(field);
    let (word, _) = split_word(slice_subrange(field, a, b));
    match parse_number(word, usize::MAX as u64) {
        Some(mb) => (mb / 1024) as usize,
        None => 24,
    }
}

/// The total in a line of a memory report, in GiB.
fn read_total_gb(line: &[char]) -> (r: Option<usize>)
    ensures
        r == reported_gb(line@),
{
    let mark = characters("MemTotal:");
    if !starts_with_text(line, mark.as_slice()) {
        return None;
    }
    let (_, rest) = split_word(line);
    let (word, _) = split_word(rest);
    match parse_number(word, usize::MAX as u64) {
        Some(kb) => Some((kb / 0x10_0000) as usize),
        None => None,
    }
}

/// The first line of a text and the text behind it.
fn split_line(s: &[char]) -> (r: (&[char], &[char]))
    ensures
        r.0@ == first_line(s@),
        r.1@ == after_line(s@),
        r.0@.len() <= s@.len(),
        r.0@ == s@.subrange(0, r.0@.len() as int),
        s@.len() > 0 ==> r.1@.len() < s@.len(),
{
    let end: usize = find_char(s, '\n', 0);
    let line = if 0 < end && end < s.len() && s[end - 1] == '\r' {
        slice_subrange(s, 0, end - 1)
    } else {
        slice_subrange(s, 0, end)
    };
    let rest = if end < s.len() {
        slice_subrange(s, end + 1, s.len())
    } else {
        slice_subrange(s, end, end)
    };
    assert(rest@ =~= after_line(s@));
    (line, rest)
}

/// The last total that a memory report gives, in GiB; `otherwise` where it gives none.
pub fn total_memory_gb(report: &str, otherwise: usize) -> (r: usize)
    ensures
        r == memory_gb(report@, otherwise),
{
    let text = characters(report);
    let mut rest = text.as_slice();
    let mut gb: usize = otherwise;
    while rest.len() > 0
        invariant
            memory_gb(rest@, gb) == memory_gb(report@, otherwise),
        decreases rest@.len(),
    {
        let (line, tail) = split_line(rest);
        match read_total_gb(line) {
            Some(n) => {
                gb = n;
            },
            None => {},
        }
        rest = tail;
    }
    gb
}

impl ExecutionSurface {
    /// The surface that a machine tells of: its GPU where a listing of "name, memory in MiB"
    /// lines names one, else what the operating system says.
    pub fn detect(listing: Option<&str>, machine: MachineReport<'_>) -> (r: Self)
        ensures
            r@ == detected(listing, machine),
    {
        match listing {
            Some(text) => match Self::from_nvidia_listing(text) {
                Some(surface) => {
                    return surface;
                },
                None => {},
            },
            None => {},
        }
        match machine {
            MachineReport::MacOs { brand, size } => Self::apple_silicon(brand, size),
            MachineReport::Linux { cores, memory } => Self::linux_cpu(cores, memory),
            MachineReport::OtherUnix { cores } => Self::unix_cpu(cores),
        }
    }

    /// The surface that a listing of "name, memory in MiB" lines tells of.
    pub fn from_nvidia_listing(listing: &str) -> (r: Option<Self>)
        ensures
            match r {
                Some(s) => nvidia_surface(listing@) == Some(s@),
                None => nvidia_surface(listing@) is None,
            },
    {
        let text = characters(listing);
        if text.len() == 0 {
            return None;
        }
        let (line, _) = split_line(text.as_slice());
        let comma: usize = find_char(line, ',', 0);
        let field = slice_subrange(line, 0, comma);
        let (a, b) = trim_range(field);
        let name = slice_subrange(field, a, b);
        assert(name@ =~= listing@.subrange(a as int, b as int));
        let model = listing.substring_char(a, b).to_owned();
        let gb10 = characters("GB10");
        let grace = characters("Grace Blackwell");
        if contains_text(name, gb10.as_slice()) || contains_text(name, grace.as_slice()) {
            Some(ExecutionSurface::NvidiaGraceBlackwell { model, unified_memory_gb: 121 })
        } else {
            Some(ExecutionSurface::NvidiaCuda { gpu_name: model, vram_gb: read_vram_gb(line) })
        }
    }

    /// An Apple machine, from the reported chip brand and memory size in bytes.
    pub fn apple_silicon(brand: Option<&str>, size: Option<&str>) -> (r: Self)
        ensures
            r@ == machine_surface(MachineReport::MacOs { brand, size }),
    {
        let name = match brand {
            Some(text) => {
                let chars = characters(text);
                let (a, b) = trim_range(chars.as_slice());
                if a < b {
                    text.substring_char(a, b).to_owned()
                } else {
                    "Apple Silicon".to_owned()
                }
            },
            None => "Apple Silicon".to_owned(),
        };
        let gb: usize = match size {
            Some(text) => {
                let chars = characters(text);
                let (a, b) = trim_range(chars.as_slice());
                match parse_number(slice_subrange(chars.as_slice(), a, b), u64::MAX) {
                    Some(bytes) => (bytes / 0x4000_0000) as usize,
                    None => 16,
                }
            },
            None => 16,
        };
        ExecutionSurface::AppleSilicon { chip_name: name, unified_memory_gb: gb }
    }

    /// A Linux machine without a GPU, from its core count and memory report.
    pub fn linux_cpu(cores: Option<usize>, memory: Option<&str>) -> (r: Self)
        ensures
            r@ == machine_surface(MachineReport::Linux { cores, memory }),
    {
        let cpu_cores: usize = match cores {
            Some(n) => n,
            None => 8,
        };
        let total_ram_gb: usize = match memory {
            Some(t) => total_memory_gb(t, 16),
            None => 16,
        };
        ExecutionSurface::GenericLinuxCpu { cpu_cores, total_ram_gb }
    }

    /// Another Unix machine, from its core count.
    pub fn unix_cpu(cores: Option<usize>) -> (r: Self)
        ensures
            r@ == machine_surface(MachineReport::OtherUnix { cores }),
    {
        let cpu_cores: usize = match cores {
            Some(n) => n,
            None => 4,
        };
        ExecutionSurface::GenericUnixCpu { cpu_cores, total_ram_gb: 8 }
    }

    pub fn display_name(&self) -> (r: String)
        ensures
            r@ == self@.shown(),
    {
        match self {
            ExecutionSurface::NvidiaGraceBlackwell { model, unified_memory_gb } => named(
                model,
                *unified_memory_gb,
                " GB Unified Memory)",
            ),
            ExecutionSurface::NvidiaCuda { gpu_name, vram_gb } => named(
                gpu_name,
                *vram_gb,
                " GB VRAM)",
            ),
            ExecutionSurface::AppleSilicon { chip_name, unified_memory_gb } => named(
                chip_name,
                *unified_memory_gb,
                " GB Unified Memory)",
            ),
            ExecutionSurface::GenericLinuxCpu { cpu_cores, total_ram_gb } => numbered_twice(
                "Linux CPU (",
                *cpu_cores as u64,
                " Cores, ",
                *total_ram_gb as u64,
                " GB RAM)",
            ),
            ExecutionSurface::GenericUnixCpu { cpu_cores, total_ram_gb } => numbered_twice(
                "Unix CPU (",
                *cpu_cores as u64,
                " Cores, ",
                *total_ram_gb as u64,
                " GB RAM)",
            ),
        }
    }

    pub fn is_accelerated_gpu(&self) -> (r: bool)
        ensures
            r == self@.is_gpu(),
    {
        match self {
            ExecutionSurface::NvidiaGraceBlackwell { .. } => true,
            ExecutionSurface::NvidiaCuda { .. } => true,
            _ => false,
        }
    }
}

impl Clone for ExecutionSurface {
    fn clone(&self) -> (r: Self)
        ensures
            r@ == self@,
    {
        match self {
            ExecutionSurface::NvidiaGraceBlackwell { model, unified_memory_gb } => {
                ExecutionSurface::NvidiaGraceBlackwell {
                    model: model.clone(),
                    unified_memory_gb: *unified_memory_gb,
                }
            },
            ExecutionSurface::NvidiaCuda { gpu_name, vram_gb } => ExecutionSurface::NvidiaCuda {
                gpu_name: gpu_name.clone(),
                vram_gb: *vram_gb,
            },
            ExecutionSurface::AppleSilicon { chip_name, unified_memory_gb } => {
                ExecutionSurface::AppleSilicon {
                    chip_name: chip_name.clone(),
                    unified_memory_gb: *unified_memory_gb,
                }
            },
            ExecutionSurface::GenericLinuxCpu { cpu_cores, total_ram_gb } => {
                ExecutionSurface::GenericLinuxCpu {
                    cpu_cores: *cpu_cores,
                    total_ram_gb: *total_ram_gb,
                }
            },
            ExecutionSurface::GenericUnixCpu { cpu_cores, total_ram_gb } => {
                ExecutionSurface::GenericUnixCpu {
                    cpu_cores: *cpu_cores,
                    total_ram_gb: *total_ram_gb,
                }
            },
        }
    }
}

} // verus!
