//! The line `uname` prints: the selected system fields, in a fixed order,
//! separated by single spaces.

use vstd::prelude::*;

verus! {

/// Which fields to print.
#[derive(Clone, Copy, Debug, PartialEq, Eq, Structural)]
pub struct UnameFields {
    pub kernel_name: bool,
    pub nodename: bool,
    pub kernel_release: bool,
    pub kernel_version: bool,
    pub machine: bool,
    pub processor: bool,
    pub hardware_platform: bool,
    pub operating_system: bool,
}

/// The system's fields as `uname(2)` reports them.
pub struct SystemNames {
    pub sysname: Vec<u8>,
    pub nodename: Vec<u8>,
    pub release: Vec<u8>,
    pub version: Vec<u8>,
    pub machine: Vec<u8>,
}

/// The operating system's name: `GNU/Linux`.
pub open spec fn os_name() -> Seq<u8> {
    seq![71u8, 78, 85, 47, 76, 105, 110, 117, 120]
}

/// `parts` joined by single spaces.
#[verifier::opaque]
pub open spec fn spaced(parts: Seq<Seq<u8>>) -> Seq<u8>
    decreases parts.len(),
{
    if parts.len() == 0 {
        Seq::empty()
    } else if parts.len() == 1 {
        parts[0]
    } else {
        spaced(parts.drop_last()) + seq![32u8] + parts.last()
    }
}

/// `f` as a one-field list when `on`, else no field.
pub open spec fn field_if(on: bool, f: Seq<u8>) -> Seq<Seq<u8>> {
    if on { seq![f] } else { Seq::empty() }
}

/// The selected fields in print order: kernel name, node name, kernel
/// release, kernel version, machine; then the processor and the hardware
/// platform, which are the machine name; then the operating system.
pub open spec fn selected(show: UnameFields, sys: Seq<u8>, node: Seq<u8>, rel: Seq<u8>, ver: Seq<u8>, mach: Seq<u8>) -> Seq<Seq<u8>> {
    Seq::<Seq<u8>>::empty() + field_if(show.kernel_name, sys) + field_if(show.nodename, node) + field_if(show.kernel_release, rel)
        + field_if(show.kernel_version, ver) + field_if(show.machine, mach) + field_if(show.processor, mach)
        + field_if(show.hardware_platform, mach) + field_if(show.operating_system, os_name())
}

/// The printed line: the selected fields joined by spaces, then a newline.
pub open spec fn uname_text(show: UnameFields, names: &SystemNames) -> Seq<u8> {
    spaced(selected(show, names.sysname@, names.nodename@, names.release@, names.version@, names.machine@))
        + seq![10u8]
}

/// The selection in effect: with no field asked for, the kernel name.
pub open spec fn spec_effective_fields(show: UnameFields) -> UnameFields {
    if !show.kernel_name && !show.nodename && !show.kernel_release && !show.kernel_version && !show.machine
        && !show.processor && !show.hardware_platform && !show.operating_system {
        UnameFields { kernel_name: true, ..show }
    } else {
        show
    }
}

/// Every field, as `-a` asks.
pub fn all_fields() -> (r: UnameFields)
    ensures
        r.kernel_name && r.nodename && r.kernel_release && r.kernel_version && r.machine && r.processor
            && r.hardware_platform && r.operating_system,
{
    UnameFields {
        kernel_name: true,
        nodename: true,
        kernel_release: true,
        kernel_version: true,
        machine: true,
        processor: true,
        hardware_platform: true,
        operating_system: true,
    }
}

/// The selection in effect: the kernel name when no field was asked for.
pub fn effective_fields(show: UnameFields) -> (r: UnameFields)
    ensures
        r == spec_effective_fields(show),
{
    if !show.kernel_name && !show.nodename && !show.kernel_release && !show.kernel_version && !show.machine
        && !show.processor && !show.hardware_platform && !show.operating_system {
        UnameFields { kernel_name: true, ..show }
    } else {
        show
    }
}

/// Appends `f` to the line when `on`, after a space unless it is the first field.
fn add_field(out: &mut Vec<u8>, parts: Ghost<Seq<Seq<u8>>>, started: bool, on: bool, f: &[u8]) -> (r: (Ghost<Seq<Seq<u8>>>, bool))
    requires
        old(out)@ == spaced(parts@),
        started == (parts@.len() > 0),
    ensures
        r.0@ == parts@ + field_if(on, f@),
        final(out)@ == spaced(r.0@),
        r.1 == (r.0@.len() > 0),
{
    if on {
        if started {
            out.push(32u8);
        }
        out.extend_from_slice(f);
        let ghost next = parts@.push(f@);
        proof {
            reveal(spaced);
            assert(next.drop_last() =~= parts@);
            if parts@.len() == 0 {
                assert(out@ =~= f@);
            } else {
                assert(out@ =~= spaced(parts@) + seq![32u8] + f@);
            }
        }
        assert(parts@ + field_if(on, f@) =~= next);
        (Ghost(next), true)
    } else {
        assert(parts@ + field_if(on, f@) =~= parts@);
        (parts, started)
    }
}

/// Writes the `uname` line for the selected fields.
pub fn uname_line(show: UnameFields, names: &SystemNames) -> (r: Vec<u8>)
    ensures
        r@ == uname_text(show, names),
{
    let os: [u8; 9] = [71, 78, 85, 47, 76, 105, 110, 117, 120];
    assert(os@ =~= os_name());
    let mut out: Vec<u8> = Vec::new();
    let p = Ghost(Seq::<Seq<u8>>::empty());
    let s = false;
    assert(out@ =~= spaced(p@)) by {
        reveal(spaced);
    }
    let (p, s) = add_field(&mut out, p, s, show.kernel_name, names.sysname.as_slice());
    let (p, s) = add_field(&mut out, p, s, show.nodename, names.nodename.as_slice());
    let (p, s) = add_field(&mut out, p, s, show.kernel_release, names.release.as_slice());
    let (p, s) = add_field(&mut out, p, s, show.kernel_version, names.version.as_slice());
    let (p, s) = add_field(&mut out, p, s, show.machine, names.machine.as_slice());
    let (p, s) = add_field(&mut out, p, s, show.processor, names.machine.as_slice());
    let (p, s) = add_field(&mut out, p, s, show.hardware_platform, names.machine.as_slice());
    let (p, s) = add_field(&mut out, p, s, show.operating_system, &os);
    assert(p@ == selected(show, names.sysname@, names.nodename@, names.release@, names.version@, names.machine@));
    out.push(10u8);
    out
}

} // verus!
