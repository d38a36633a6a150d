//! The run's configuration: the hardware device the release is built for
//! and the release version, validated up front into typed values instead
//! of being read lazily from ambient state.

use vstd::prelude::*;
use vstd::string::{StringExecFns, StringSliceAdditionalSpecFns};

verus! {

/// The hardware device a release targets.
#[derive(Debug, Clone, Copy, PartialEq, Eq, Structural)]
pub enum Device {
    Cpu,
    Cuda,
}

impl Default for Device {
    fn default() -> (r: Device)
        ensures
            r == Device::Cpu,
    {
        Device::Cpu
    }
}

/// Why the configuration cannot be used.
#[derive(Debug, Clone)]
pub enum ConfigError {
    /// No device was configured.
    DeviceNotSet,
    /// The configured device names no known hardware.
    DeviceInvalid { value: String },
    /// No release version was configured.
    VersionNotSet,
}

/// The UTF-8 bytes spell "cpu", in any letter case.
pub open spec fn is_cpu_name(b: Seq<u8>) -> bool {
    &&& b.len() == 3
    &&& (b[0] == 67 || b[0] == 99)
    &&& (b[1] == 80 || b[1] == 112)
    &&& (b[2] == 85 || b[2] == 117)
}

/// The UTF-8 bytes spell "cuda", in any letter case.
pub open spec fn is_cuda_name(b: Seq<u8>) -> bool {
    &&& b.len() == 4
    &&& (b[0] == 67 || b[0] == 99)
    &&& (b[1] == 85 || b[1] == 117)
    &&& (b[2] == 68 || b[2] == 100)
    &&& (b[3] == 65 || b[3] == 97)
}

/// Parses a device name, ignoring letter case; any other value is
/// rejected and echoed back in the error.
pub fn parse_device(s: &str) -> (r: Result<Device, ConfigError>)
    ensures
        r == Ok::<Device, ConfigError>(Device::Cpu) <==> is_cpu_name(s.spec_bytes()),
        r == Ok::<Device, ConfigError>(Device::Cuda) <==> is_cuda_name(s.spec_bytes()),
        (r matches Err(e) ==> e matches ConfigError::DeviceInvalid { value } && value@ == s@
            && !is_cpu_name(s.spec_bytes()) && !is_cuda_name(s.spec_bytes())),
{
    let b = s.as_bytes();
    if b.len() == 3 && (b[0] == 67 || b[0] == 99) && (b[1] == 80 || b[1] == 112) && (b[2] == 85
        || b[2] == 117) {
        Ok(Device::Cpu)
    } else if b.len() == 4 && (b[0] == 67 || b[0] == 99) && (b[1] == 85 || b[1] == 117) && (b[2]
        == 68 || b[2] == 100) && (b[3] == 65 || b[3] == 97) {
        Ok(Device::Cuda)
    } else {
        Err(ConfigError::DeviceInvalid { value: s.to_owned() })
    }
}

/// The canonical name of a device, as the release assets spell it.
pub fn device_name(d: Device) -> (r: String)
    ensures
        d == Device::Cpu ==> r@ == "CPU"@,
        d == Device::Cuda ==> r@ == "CUDA"@,
{
    match d {
        Device::Cpu => String::from_str("CPU"),
        Device::Cuda => String::from_str("CUDA"),
    }
}

/// Validates the run's configuration: both the device and the version
/// must be set, and the device must name known hardware. This replaces
/// lazily-read global configuration that would fail only on first use.
pub fn validate_config(device: Option<&str>, version: Option<&str>) -> (r: Result<
    (Device, String),
    ConfigError,
>)
    ensures
        device is None <==> (r matches Err(e) && e is DeviceNotSet),
        (r matches Err(e) && e is VersionNotSet) <==> (device is Some && version is None),
        (r matches Ok(c) ==> {
            &&& device is Some && version is Some
            &&& (c.0 == Device::Cpu <==> is_cpu_name(device->0.spec_bytes()))
            &&& (c.0 == Device::Cuda <==> is_cuda_name(device->0.spec_bytes()))
            &&& c.1@ == version->0@
        }),
        (match r {
            Err(ConfigError::DeviceInvalid { value }) => device is Some && value@ == device->0@
                && !is_cpu_name(device->0.spec_bytes()) && !is_cuda_name(device->0.spec_bytes()),
            _ => true,
        }),
{
    let d = match device {
        Some(d) => d,
        None => {
            return Err(ConfigError::DeviceNotSet);
        },
    };
    let v = match version {
        Some(v) => v,
        None => {
            return Err(ConfigError::VersionNotSet);
        },
    };
    match parse_device(d) {
        Ok(parsed) => Ok((parsed, v.to_owned())),
        Err(e) => Err(e),
    }
}

} // verus!
