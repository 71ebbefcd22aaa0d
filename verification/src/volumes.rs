//! Mounted-volume snapshots.
//!
//! The operating-system query that enumerates volumes lives outside this
//! crate; it hands in each volume's raw capacity figures, and the verified
//! constructor here derives the used-space figure, which never exceeds the
//! total even when the reported numbers are inconsistent.

use vstd::prelude::*;

verus! {

/// One mounted volume snapshot: raw capacity figures as the operating
/// system reported them, plus the derived `used_space`.
pub struct DriveInfo {
    pub name: String,
    pub mount_point: String,
    pub total_space: u64,
    pub available_space: u64,
    pub used_space: u64,
    pub file_system: String,
}

/// Bytes in use on a volume: total minus available, saturating at zero when
/// the operating system reports more available than total (for example a
/// remote mount read mid-write).
pub open spec fn used_space_of(total_space: u64, available_space: u64) -> u64 {
    if available_space <= total_space {
        (total_space - available_space) as u64
    } else {
        0
    }
}

/// Builds the snapshot for one volume from the raw figures. The derived
/// `used_space` saturates at zero, so it never exceeds `total_space`.
pub fn make_drive_info(
    name: String,
    mount_point: String,
    total_space: u64,
    available_space: u64,
    file_system: String,
) -> (d: DriveInfo)
    ensures
        d.name@ == name@,
        d.mount_point@ == mount_point@,
        d.total_space == total_space,
        d.available_space == available_space,
        d.file_system@ == file_system@,
        d.used_space == used_space_of(total_space, available_space),
        d.used_space <= d.total_space,
{
    let used_space: u64 = if available_space <= total_space {
        total_space - available_space
    } else {
        0
    };
    DriveInfo { name, mount_point, total_space, available_space, used_space, file_system }
}

/// The raw figures the operating system reports for one mounted volume.
pub struct RawVolume {
    pub name: String,
    pub mount_point: String,
    pub total_space: u64,
    pub available_space: u64,
    pub file_system: String,
}

/// A snapshot carries its volume's raw figures unchanged, and a used-space
/// figure that is derived from them and never exceeds the total.
pub open spec fn drive_matches(d: DriveInfo, v: RawVolume) -> bool {
    &&& d.name@ == v.name@
    &&& d.mount_point@ == v.mount_point@
    &&& d.total_space == v.total_space
    &&& d.available_space == v.available_space
    &&& d.file_system@ == v.file_system@
    &&& d.used_space == used_space_of(v.total_space, v.available_space)
    &&& d.used_space <= d.total_space
}

/// Builds the volumes overview: one snapshot per reported volume, in the
/// order the operating system reported them, each with its derived
/// used-space figure.
pub fn collect_drives(raw: &Vec<RawVolume>) -> (out: Vec<DriveInfo>)
    ensures
        out@.len() == raw@.len(),
        forall|i: int| 0 <= i < raw@.len() ==> drive_matches(#[trigger] out@[i], raw@[i]),
{
    let mut out: Vec<DriveInfo> = Vec::new();
    let n: usize = raw.len();
    let mut i: usize = 0;
    while i < n
        invariant
            n == raw@.len(),
            i <= n,
            out@.len() == i,
            forall|j: int| 0 <= j < i ==> drive_matches(#[trigger] out@[j], raw@[j]),
        decreases n - i,
    {
        let v = &raw[i];
        let d = make_drive_info(
            v.name.clone(),
            v.mount_point.clone(),
            v.total_space,
            v.available_space,
            v.file_system.clone(),
        );
        out.push(d);
        i = i + 1;
    }
    out
}

} // verus!
