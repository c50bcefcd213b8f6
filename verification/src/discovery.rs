//! Device discovery: the static catalog of supported USB identities and
//! the filter that keeps only matching endpoints.
//!
//! Enumerating the host's serial ports is the embedding program's job; it
//! hands the enumeration here as plain [`PortListing`] values, in host
//! order, and gets back the endpoints whose USB identity exactly matches
//! one of the catalog entries. The filter is never applied to an endpoint
//! the caller named explicitly.

use vstd::prelude::*;
use vstd::string::*;

verus! {

/// The USB identity of a device, compared by value.
#[derive(Clone, Copy, PartialEq, Eq, Structural, Debug)]
pub struct DeviceDescriptor {
    /// USB vendor id.
    pub vendor_id: u16,
    /// USB product id.
    pub product_id: u16,
}

/// The catalog: a (vendor, product) identity is supported iff it is one
/// of the three Keyboardio entries — the Model100, the Atreus, or the
/// Model01.
pub open spec fn spec_supported(vendor_id: u16, product_id: u16) -> bool {
    ||| vendor_id == 0x3496 && product_id == 0x0006
    ||| vendor_id == 0x1209 && product_id == 0x2303
    ||| vendor_id == 0x1209 && product_id == 0x2301
}

impl DeviceDescriptor {
    /// Whether this identity is in the catalog.
    pub fn is_supported(&self) -> (r: bool)
        ensures
            r == spec_supported(self.vendor_id, self.product_id),
    {
        (self.vendor_id == 0x3496 && self.product_id == 0x0006) || (self.vendor_id == 0x1209
            && (self.product_id == 0x2303 || self.product_id == 0x2301))
    }
}

/// One enumerated endpoint: its path and, when it is a USB port, its
/// identity.
pub struct PortListing {
    /// The endpoint path, as the host names it.
    pub name: String,
    /// The USB identity the endpoint reports, if any.
    pub usb: Option<DeviceDescriptor>,
}

/// An endpoint passes the filter iff it reports a USB identity and that
/// identity is in the catalog.
pub open spec fn port_is_supported(port: PortListing) -> bool {
    match port.usb {
        Some(d) => spec_supported(d.vendor_id, d.product_id),
        None => false,
    }
}

/// The names of the endpoints that pass the filter, in enumeration order.
pub open spec fn spec_matching_ports(ports: Seq<PortListing>) -> Seq<Seq<char>>
    decreases ports.len(),
{
    if ports.len() == 0 {
        seq![]
    } else {
        let rest = spec_matching_ports(ports.drop_first());
        if port_is_supported(ports[0]) {
            seq![ports[0].name@] + rest
        } else {
            rest
        }
    }
}

/// Find supported devices among the enumerated endpoints and return the
/// paths to their ports, in enumeration order. `None` signals that no
/// supported device was found — an explicit "not found", not an error,
/// so the caller decides whether that is fatal.
pub fn find_devices(ports: &Vec<PortListing>) -> (r: Option<Vec<String>>)
    ensures
        (match r {
            Some(devices) => devices.deep_view() == spec_matching_ports(ports@)
                && devices@.len() > 0,
            None => spec_matching_ports(ports@).len() == 0,
        }),
{
    let mut devices: Vec<String> = Vec::new();
    let mut i: usize = 0;
    proof {
        assert(ports@.skip(0) =~= ports@);
        assert(devices.deep_view() =~~= Seq::<Seq<char>>::empty());
    }
    while i < ports.len()
        invariant
            i <= ports@.len(),
            spec_matching_ports(ports@) == devices.deep_view() + spec_matching_ports(
                ports@.skip(i as int),
            ),
        decreases ports@.len() - i,
    {
        let keep = match &ports[i].usb {
            Some(d) => d.is_supported(),
            None => false,
        };
        let ghost old_devices = devices.deep_view();
        proof {
            assert(ports@.skip(i as int)[0] == ports@[i as int]);
            assert(ports@.skip(i as int).drop_first() =~= ports@.skip(i as int + 1));
        }
        if keep {
            devices.push(ports[i].name.clone());
            proof {
                assert(devices.deep_view() =~~= old_devices.push(ports@[i as int].name@));
                assert(old_devices.push(ports@[i as int].name@) =~~= old_devices + seq![
                    ports@[i as int].name@,
                ]);
                assert((old_devices + seq![ports@[i as int].name@]) + spec_matching_ports(
                    ports@.skip(i as int + 1),
                ) =~~= old_devices + (seq![ports@[i as int].name@] + spec_matching_ports(
                    ports@.skip(i as int + 1),
                )));
            }
        }
        i = i + 1;
    }
    proof {
        assert(devices.deep_view() + spec_matching_ports(ports@.skip(ports@.len() as int))
            =~~= devices.deep_view());
    }
    if devices.len() == 0 {
        None
    } else {
        Some(devices)
    }
}

/// The endpoint a connection uses: an explicitly named endpoint wins and
/// is never filtered; otherwise the first discovered supported device;
/// `None` when neither exists.
pub fn pick_device(explicit: &Option<String>, ports: &Vec<PortListing>) -> (r: Option<String>)
    ensures
        (match r {
            Some(name) => (match explicit {
                Some(d) => name@ == d@,
                None => spec_matching_ports(ports@).len() > 0 && name@ == spec_matching_ports(
                    ports@,
                )[0],
            }),
            None => explicit is None && spec_matching_ports(ports@).len() == 0,
        }),
{
    match explicit {
        Some(d) => Some(d.clone()),
        None => {
            match find_devices(ports) {
                Some(devices) => Some(devices[0].clone()),
                None => None,
            }
        },
    }
}

/// Exactly the catalog decides membership in the discovery result: a
/// name is returned iff some enumerated endpoint carries it and reports
/// a supported identity. An endpoint with a near-miss identity (same
/// vendor, different product) contributes nothing.
pub proof fn lemma_discovery_exact(ports: Seq<PortListing>, name: Seq<char>)
    ensures
        spec_matching_ports(ports).contains(name) <==> (exists|j: int|
            0 <= j < ports.len() && port_is_supported(#[trigger] ports[j]) && ports[j].name@
                == name),
    decreases ports.len(),
{
    if ports.len() > 0 {
        lemma_discovery_exact(ports.drop_first(), name);
        let rest = spec_matching_ports(ports.drop_first());
        if spec_matching_ports(ports).contains(name) {
            if port_is_supported(ports[0]) && ports[0].name@ == name {
            } else {
                assert(rest.contains(name)) by {
                    if port_is_supported(ports[0]) {
                        let k = choose|k: int|
                            0 <= k < spec_matching_ports(ports).len() && spec_matching_ports(
                                ports,
                            )[k] == name;
                        assert(rest[k - 1] == name);
                    }
                }
                let j = choose|j: int|
                    0 <= j < ports.drop_first().len() && port_is_supported(
                        #[trigger] ports.drop_first()[j],
                    ) && ports.drop_first()[j].name@ == name;
                assert(port_is_supported(ports[j + 1]) && ports[j + 1].name@ == name);
            }
        }
        if exists|j: int|
            0 <= j < ports.len() && port_is_supported(#[trigger] ports[j]) && ports[j].name@
                == name {
            let j = choose|j: int|
                0 <= j < ports.len() && port_is_supported(#[trigger] ports[j]) && ports[j].name@
                    == name;
            if j == 0 {
                assert(spec_matching_ports(ports)[0] == name);
            } else {
                assert(port_is_supported(ports.drop_first()[j - 1]));
                assert(rest.contains(name));
                let k = choose|k: int| 0 <= k < rest.len() && rest[k] == name;
                if port_is_supported(ports[0]) {
                    assert(spec_matching_ports(ports)[k + 1] == name);
                }
            }
        }
    }
}

} // verus!
