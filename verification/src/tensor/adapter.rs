//! The choice of a graphics adapter.
use vstd::prelude::*;
use vstd::string::*;

use crate::error::Error;
use crate::text::{
    ascii_lowercase, contains, contains_str, hex, join, join_strings, lower_char, lowercase,
    occurs_at, push_hex4, views, zero_padded,
};

verus! {

/// The interface through which an adapter is driven.
#[derive(Debug, Clone, Copy, PartialEq, Eq, Structural)]
pub enum GpuBackend {
    Empty,
    Vulkan,
    Metal,
    Dx12,
    Gl,
    BrowserWebGpu,
}

#[derive(Debug, Clone, Copy, PartialEq, Eq, Structural)]
pub enum GpuDeviceType {
    Other,
    IntegratedGpu,
    DiscreteGpu,
    VirtualGpu,
    Cpu,
}

/// What an adapter tells of itself.
#[derive(Debug, Clone)]
pub struct AdapterInfo {
    pub name: String,
    pub vendor: u32,
    pub device: u32,
    pub device_type: GpuDeviceType,
    pub backend: GpuBackend,
}

/// Which adapters are wanted: those that fit all fields that are given.
#[derive(Debug, Clone)]
pub struct GpuAdapterSelector {
    pub name_substring: Option<String>,
    pub vendor_id: Option<u32>,
    pub device_id: Option<u32>,
    pub backend: Option<GpuBackend>,
    pub device_type: Option<GpuDeviceType>,
}

impl Default for GpuAdapterSelector {
    fn default() -> (s: Self)
        ensures
            s.empty(),
    {
        GpuAdapterSelector {
            name_substring: None,
            vendor_id: None,
            device_id: None,
            backend: None,
            device_type: None,
        }
    }
}

pub open spec fn backend_text(backend: GpuBackend) -> Seq<char> {
    match backend {
        GpuBackend::Empty => "empty"@,
        GpuBackend::Vulkan => "vulkan"@,
        GpuBackend::Metal => "metal"@,
        GpuBackend::Dx12 => "dx12"@,
        GpuBackend::Gl => "gl"@,
        GpuBackend::BrowserWebGpu => "webgpu"@,
    }
}

pub open spec fn device_type_text(device_type: GpuDeviceType) -> Seq<char> {
    match device_type {
        GpuDeviceType::Other => "Other"@,
        GpuDeviceType::IntegratedGpu => "IntegratedGpu"@,
        GpuDeviceType::DiscreteGpu => "DiscreteGpu"@,
        GpuDeviceType::VirtualGpu => "VirtualGpu"@,
        GpuDeviceType::Cpu => "Cpu"@,
    }
}

/// The name of a backend in messages.
pub fn backend_name(backend: GpuBackend) -> (s: &'static str)
    ensures
        s@ == backend_text(backend),
{
    match backend {
        GpuBackend::Empty => "empty",
        GpuBackend::Vulkan => "vulkan",
        GpuBackend::Metal => "metal",
        GpuBackend::Dx12 => "dx12",
        GpuBackend::Gl => "gl",
        GpuBackend::BrowserWebGpu => "webgpu",
    }
}

/// The name of a kind of device in messages.
pub fn device_type_name(device_type: GpuDeviceType) -> (s: &'static str)
    ensures
        s@ == device_type_text(device_type),
{
    match device_type {
        GpuDeviceType::Other => "Other",
        GpuDeviceType::IntegratedGpu => "IntegratedGpu",
        GpuDeviceType::DiscreteGpu => "DiscreteGpu",
        GpuDeviceType::VirtualGpu => "VirtualGpu",
        GpuDeviceType::Cpu => "Cpu",
    }
}

/// An identifier as at least four hexadecimal digits.
pub open spec fn id_text(id: u32) -> Seq<char> {
    "0x"@ + zero_padded(hex(id as nat), 4)
}

fn push_id(text: &mut String, before: &str, id: u32)
    ensures
        final(text)@ == old(text)@ + (before@ + id_text(id)),
{
    text.append(before);
    text.append("0x");
    push_hex4(text, id);
    assert(text@ =~= old(text)@ + (before@ + id_text(id)));
}

/// The parts of a description of a selector.
pub open spec fn wanted_parts(s: GpuAdapterSelector) -> Seq<Seq<char>> {
    let name: Seq<Seq<char>> = match s.name_substring {
        Some(n) => seq!["name contains `"@ + n@ + "`"@],
        None => Seq::empty(),
    };
    let vendor: Seq<Seq<char>> = match s.vendor_id {
        Some(id) => seq!["vendor_id="@ + id_text(id)],
        None => Seq::empty(),
    };
    let device: Seq<Seq<char>> = match s.device_id {
        Some(id) => seq!["device_id="@ + id_text(id)],
        None => Seq::empty(),
    };
    let backend: Seq<Seq<char>> = match s.backend {
        Some(b) => seq!["backend="@ + backend_text(b)],
        None => Seq::empty(),
    };
    let device_type: Seq<Seq<char>> = match s.device_type {
        Some(t) => seq!["device_type="@ + device_type_text(t)],
        None => Seq::empty(),
    };
    name + vendor + device + backend + device_type
}

/// What a selector asks for, in words.
pub open spec fn selector_text(s: GpuAdapterSelector) -> Seq<char> {
    if wanted_parts(s).len() == 0 {
        "any adapter"@
    } else {
        join(wanted_parts(s), ", "@)
    }
}

impl GpuAdapterSelector {
    pub open spec fn empty(&self) -> bool {
        self.name_substring is None && self.vendor_id is None && self.device_id is None
            && self.backend is None && self.device_type is None
    }

    /// Whether the selector asks for nothing.
    pub fn is_empty(&self) -> (b: bool)
        ensures
            b == self.empty(),
    {
        self.name_substring.is_none() && self.vendor_id.is_none() && self.device_id.is_none()
            && self.backend.is_none() && self.device_type.is_none()
    }

    /// The adapter has all that is asked for; letters count without their case.
    pub open spec fn fits(&self, info: AdapterInfo) -> bool {
        &&& self.name_substring matches Some(n) ==> contains(
            ascii_lowercase(info.name@),
            ascii_lowercase(n@),
        )
        &&& self.vendor_id matches Some(id) ==> info.vendor == id
        &&& self.device_id matches Some(id) ==> info.device == id
        &&& self.backend matches Some(b) ==> info.backend == b
        &&& self.device_type matches Some(t) ==> info.device_type == t
    }

    /// Whether an adapter has all that is asked for.
    pub fn matches(&self, info: &AdapterInfo) -> (b: bool)
        ensures
            b == self.fits(*info),
    {
        if let Some(name) = &self.name_substring {
            if !contains_str(&lowercase(&info.name), &lowercase(name)) {
                return false;
            }
        }
        if let Some(id) = self.vendor_id {
            if info.vendor != id {
                return false;
            }
        }
        if let Some(id) = self.device_id {
            if info.device != id {
                return false;
            }
        }
        if let Some(backend) = self.backend {
            if info.backend != backend {
                return false;
            }
        }
        if let Some(device_type) = self.device_type {
            if info.device_type != device_type {
                return false;
            }
        }
        true
    }

    /// Says what the selector asks for.
    pub fn describe(&self) -> (s: String)
        ensures
            s@ == selector_text(*self),
    {
        let mut parts: Vec<String> = Vec::new();
        if let Some(name) = &self.name_substring {
            let mut part = String::from_str("name contains `");
            part.append(name);
            part.append("`");
            parts.push(part);
        }
        if let Some(id) = self.vendor_id {
            let mut part = String::new();
            push_id(&mut part, "vendor_id=", id);
            assert(part@ =~= "vendor_id="@ + id_text(id));
            parts.push(part);
        }
        if let Some(id) = self.device_id {
            let mut part = String::new();
            push_id(&mut part, "device_id=", id);
            assert(part@ =~= "device_id="@ + id_text(id));
            parts.push(part);
        }
        if let Some(backend) = self.backend {
            let mut part = String::from_str("backend=");
            part.append(backend_name(backend));
            parts.push(part);
        }
        if let Some(device_type) = self.device_type {
            let mut part = String::from_str("device_type=");
            part.append(device_type_name(device_type));
            parts.push(part);
        }
        assert(views(parts@) =~= wanted_parts(*self));
        if parts.len() == 0 {
            String::from_str("any adapter")
        } else {
            join_strings(&parts, ", ")
        }
    }
}

// ---------------------------------------------------------------------------
// Choosing
// ---------------------------------------------------------------------------
/// How much a kind of device is preferred.
pub open spec fn device_type_rank(device_type: GpuDeviceType) -> int {
    match device_type {
        GpuDeviceType::DiscreteGpu => 5,
        GpuDeviceType::IntegratedGpu => 4,
        GpuDeviceType::Other => 3,
        GpuDeviceType::VirtualGpu => 2,
        GpuDeviceType::Cpu => 1,
    }
}

/// How much a backend is preferred among devices of the same kind.
pub open spec fn backend_rank(backend: GpuBackend) -> int {
    match backend {
        GpuBackend::Vulkan => 5,
        GpuBackend::Metal => 4,
        GpuBackend::Dx12 => 3,
        GpuBackend::Gl => 2,
        GpuBackend::BrowserWebGpu => 1,
        GpuBackend::Empty => 0,
    }
}

/// The preference for a kind of device.
pub fn adapter_device_type_priority(device_type: GpuDeviceType) -> (p: u8)
    ensures
        p == device_type_rank(device_type),
{
    match device_type {
        GpuDeviceType::DiscreteGpu => 5,
        GpuDeviceType::IntegratedGpu => 4,
        GpuDeviceType::Other => 3,
        GpuDeviceType::VirtualGpu => 2,
        GpuDeviceType::Cpu => 1,
    }
}

/// The preference for a backend.
pub fn adapter_backend_priority(backend: GpuBackend) -> (p: u8)
    ensures
        p == backend_rank(backend),
{
    match backend {
        GpuBackend::Vulkan => 5,
        GpuBackend::Metal => 4,
        GpuBackend::Dx12 => 3,
        GpuBackend::Gl => 2,
        GpuBackend::BrowserWebGpu => 1,
        GpuBackend::Empty => 0,
    }
}

/// `a` is preferred to `b`.
pub open spec fn preferred(a: AdapterInfo, b: AdapterInfo) -> bool {
    device_type_rank(a.device_type) > device_type_rank(b.device_type) || (device_type_rank(
        a.device_type,
    ) == device_type_rank(b.device_type) && backend_rank(a.backend) > backend_rank(b.backend))
}

/// Adapter `k` fits and no other that fits is preferred; among equals it is the
/// first.
pub open spec fn is_choice(s: GpuAdapterSelector, adapters: Seq<AdapterInfo>, k: int) -> bool {
    &&& 0 <= k < adapters.len()
    &&& s.fits(adapters[k])
    &&& forall|j: int|
        0 <= j < adapters.len() && s.fits(#[trigger] adapters[j]) ==> !preferred(
            adapters[j],
            adapters[k],
        )
    &&& forall|j: int|
        0 <= j < k && s.fits(#[trigger] adapters[j]) ==> preferred(adapters[k], adapters[j])
}

pub open spec fn adapter_text(info: AdapterInfo) -> Seq<char> {
    info.name@ + " [vendor="@ + id_text(info.vendor) + ", device="@ + id_text(info.device)
        + ", backend="@ + backend_text(info.backend) + ", type="@ + device_type_text(
        info.device_type,
    ) + "]"@
}

/// Describes an adapter.
pub fn format_adapter_info(info: &AdapterInfo) -> (s: String)
    ensures
        s@ == adapter_text(*info),
{
    let mut s = String::from_str(&info.name);
    push_id(&mut s, " [vendor=", info.vendor);
    push_id(&mut s, ", device=", info.device);
    s.append(", backend=");
    s.append(backend_name(info.backend));
    s.append(", type=");
    s.append(device_type_name(info.device_type));
    s.append("]");
    assert(s@ =~= adapter_text(*info));
    s
}

pub open spec fn adapter_texts(adapters: Seq<AdapterInfo>) -> Seq<Seq<char>> {
    adapters.map_values(|info: AdapterInfo| adapter_text(info))
}

/// What is said where no adapter fits.
pub open spec fn no_adapter_text(s: GpuAdapterSelector, adapters: Seq<AdapterInfo>) -> Seq<char> {
    let available = join(adapter_texts(adapters), "; "@);
    let head = "no GPU adapter matched selector ("@ + selector_text(s) + ")"@;
    if available.len() == 0 {
        head
    } else {
        head + "; available adapters: "@ + available
    }
}

fn no_adapter_error(s: &GpuAdapterSelector, adapters: &Vec<AdapterInfo>) -> (e: Error)
    ensures
        e@ == no_adapter_text(*s, adapters@),
{
    let mut parts: Vec<String> = Vec::new();
    let mut i: usize = 0;
    while i < adapters.len()
        invariant
            i <= adapters.len(),
            views(parts@) == adapter_texts(adapters@).take(i as int),
        decreases adapters.len() - i,
    {
        let ghost before = parts@;
        let part = format_adapter_info(&adapters[i]);
        parts.push(part);
        proof {
            assert(views(parts@) =~= views(before).push(part@));
            assert(adapter_texts(adapters@).take(i + 1) =~= adapter_texts(adapters@).take(
                i as int,
            ).push(part@));
        }
        i += 1;
    }
    assert(adapter_texts(adapters@).take(i as int) =~= adapter_texts(adapters@));
    let available = join_strings(&parts, "; ");
    let mut text = String::from_str("no GPU adapter matched selector (");
    text.append(&s.describe());
    text.append(")");
    if !available.as_str().is_empty() {
        text.append("; available adapters: ");
        text.append(&available);
    }
    Error::from_text(text)
}

/// Chooses, among the adapters that fit, the one that is preferred.
pub fn select_adapter_explicit(s: &GpuAdapterSelector, adapters: &Vec<AdapterInfo>) -> (r: Result<
    usize,
    Error,
>)
    ensures
        match r {
            Ok(k) => is_choice(*s, adapters@, k as int),
            Err(e) => (forall|j: int|
                0 <= j < adapters.len() ==> !s.fits(#[trigger] adapters@[j])) && e@
                == no_adapter_text(*s, adapters@),
        },
{
    let mut best: Option<usize> = None;
    let mut i: usize = 0;
    while i < adapters.len()
        invariant
            i <= adapters.len(),
            match best {
                Some(k) => k < i && is_choice(*s, adapters@.take(i as int), k as int),
                None => forall|j: int| 0 <= j < i ==> !s.fits(#[trigger] adapters@[j]),
            },
        decreases adapters.len() - i,
    {
        let ghost seen = adapters@.take(i as int);
        let ghost more = adapters@.take(i + 1);
        let info = &adapters[i];
        if s.matches(info) {
            best = match best {
                None => Some(i),
                Some(k) => {
                    let other = &adapters[k];
                    let mine: u8 = adapter_device_type_priority(info.device_type);
                    let theirs: u8 = adapter_device_type_priority(other.device_type);
                    if mine > theirs || (mine == theirs && adapter_backend_priority(info.backend)
                        > adapter_backend_priority(other.backend)) {
                        Some(i)
                    } else {
                        Some(k)
                    }
                },
            };
        }
        proof {
            assert forall|j: int| 0 <= j < i implies #[trigger] more[j] == seen[j] by {}
            if let Some(k) = best {
                assert(is_choice(*s, more, k as int)) by {
                    assert forall|j: int| 0 <= j < more.len() && s.fits(#[trigger] more[j]) implies
                        !preferred(more[j], more[k as int]) by {
                        if j < i {
                            assert(more[j] == seen[j]);
                        }
                    }
                    assert forall|j: int| 0 <= j < k && s.fits(#[trigger] more[j]) implies
                        preferred(more[k as int], more[j]) by {
                        assert(more[j] == seen[j]);
                    }
                }
            }
        }
        i += 1;
    }
    assert(adapters@.take(i as int) =~= adapters@);
    match best {
        Some(k) => Ok(k),
        None => Err(no_adapter_error(s, adapters)),
    }
}

/// Kinds of adapters, the most wanted first.
pub open spec fn kinds_in_order() -> Seq<GpuDeviceType> {
    seq![
        GpuDeviceType::DiscreteGpu,
        GpuDeviceType::IntegratedGpu,
        GpuDeviceType::Other,
        GpuDeviceType::VirtualGpu,
        GpuDeviceType::Cpu,
    ]
}

/// Interfaces, the most wanted first.
pub open spec fn backends_in_order() -> Seq<GpuBackend> {
    seq![
        GpuBackend::Vulkan,
        GpuBackend::Metal,
        GpuBackend::Dx12,
        GpuBackend::Gl,
        GpuBackend::BrowserWebGpu,
        GpuBackend::Empty,
    ]
}

/// Of two adapters the one of a kind that comes earlier is preferred, and among the same
/// kind the one with an interface that comes earlier.
pub proof fn law_adapters_go_by_kind_then_interface(
    a: AdapterInfo,
    b: AdapterInfo,
    i: int,
    j: int,
    k: int,
    l: int,
)
    requires
        0 <= i < 5,
        0 <= j < 5,
        0 <= k < 6,
        0 <= l < 6,
        a.device_type == kinds_in_order()[i],
        b.device_type == kinds_in_order()[j],
        a.backend == backends_in_order()[k],
        b.backend == backends_in_order()[l],
    ensures
        preferred(a, b) <==> i < j || (i == j && k < l),
{
}

/// A selector takes an adapter exactly where everything that it names agrees: the name
/// holds its letters somewhere, in any size, and numbers, interface and kind are the same.
pub proof fn law_selector_takes_what_it_names(s: GpuAdapterSelector, info: AdapterInfo)
    ensures
        s.fits(info) <==> {
            &&& s.name_substring is None || exists|at: int| #[trigger]
                holds_at(info.name@, s.name_substring->0@, at)
            &&& s.vendor_id is None || s.vendor_id == Some(info.vendor)
            &&& s.device_id is None || s.device_id == Some(info.device)
            &&& s.backend is None || s.backend == Some(info.backend)
            &&& s.device_type is None || s.device_type == Some(info.device_type)
        },
{
    if s.name_substring is Some {
        let name = info.name@;
        let part = s.name_substring->0@;
        let (x, y) = (ascii_lowercase(name), ascii_lowercase(part));
        if contains(x, y) {
            let at = choose|at: int| occurs_at(x, y, at);
            assert forall|k: int| 0 <= k < part.len() implies lower_char(
                name[at + k],
            ) == lower_char(#[trigger] part[k]) by {
                assert(x.subrange(at, at + y.len())[k] == y[k]);
            }
            assert(holds_at(name, part, at));
        }
        if exists|at: int| holds_at(name, part, at) {
            let at = choose|at: int| holds_at(name, part, at);
            assert forall|k: int| 0 <= k < y.len() implies x.subrange(at, at + y.len())[k]
                == y[k] by {
                assert(lower_char(name[at + k]) == lower_char(part[k]));
            }
            assert(x.subrange(at, at + y.len()) =~= y);
            assert(occurs_at(x, y, at));
        }
    }
}

/// The text holds the letters of `part` from place `at` on, capital or small.
pub open spec fn holds_at(text: Seq<char>, part: Seq<char>, at: int) -> bool {
    &&& 0 <= at
    &&& at + part.len() <= text.len()
    &&& forall|k: int|
        0 <= k < part.len() ==> lower_char(text[at + k]) == lower_char(#[trigger] part[k])
}

/// The chosen adapter is one that the selector takes; no other that it takes is preferred,
/// and of those that are as good it is the first.
pub proof fn law_choice_is_the_first_of_the_best(
    s: GpuAdapterSelector,
    adapters: Seq<AdapterInfo>,
    k: int,
    j: int,
)
    requires
        is_choice(s, adapters, k),
        0 <= j < adapters.len(),
        s.fits(adapters[j]),
        j != k,
    ensures
        0 <= k < adapters.len(),
        s.fits(adapters[k]),
        preferred(adapters[k], adapters[j]) || (k < j && !preferred(adapters[j], adapters[k])),
{
}

} // verus!
