//! Choosing the controller's interface and endpoints.
use vstd::prelude::*;

verus! {

/// The controller's vendor.
pub const VID: u16 = 0x20D6;

/// The controller's product.
pub const PID: u16 = 0x2079;

/// The way an endpoint transfers data.
#[derive(Clone, Copy, Debug, PartialEq, Eq, Structural)]
pub enum Transfer {
    Control,
    Isochronous,
    Bulk,
    Interrupt,
}

/// The way data goes, seen from the host.
#[derive(Clone, Copy, Debug, PartialEq, Eq, Structural)]
pub enum Flow {
    In,
    Out,
}

/// An endpoint of an interface.
#[derive(Clone, Copy, Debug, PartialEq, Eq, Structural)]
pub struct Endpoint {
    pub transfer: Transfer,
    pub flow: Flow,
    pub address: u8,
}

impl Endpoint {
    /// An interrupt endpoint with data going the given way.
    pub open spec fn interrupts(self, flow: Flow) -> bool {
        self.transfer == Transfer::Interrupt && self.flow == flow
    }
}

/// An interface, or one of its alternate settings.
#[derive(Debug)]
pub struct Interface {
    pub number: u8,
    pub endpoints: Vec<Endpoint>,
}

/// The address of the first interrupt endpoint with data going the given way.
pub open spec fn interrupt_address(endpoints: Seq<Endpoint>, flow: Flow) -> Option<u8>
    decreases endpoints.len(),
{
    if endpoints.len() == 0 {
        None
    } else if endpoints[0].interrupts(flow) {
        Some(endpoints[0].address)
    } else {
        interrupt_address(endpoints.drop_first(), flow)
    }
}

/// The number and the interrupt endpoints, in and out, of the first interface that has
/// both.
pub open spec fn interrupt_interface(interfaces: Seq<Interface>) -> Option<(u8, u8, u8)>
    decreases interfaces.len(),
{
    if interfaces.len() == 0 {
        None
    } else {
        let first = interfaces[0];
        match (
            interrupt_address(first.endpoints@, Flow::In),
            interrupt_address(first.endpoints@, Flow::Out),
        ) {
            (Some(ep_in), Some(ep_out)) => Some((first.number, ep_in, ep_out)),
            _ => interrupt_interface(interfaces.drop_first()),
        }
    }
}

impl Interface {
    /// The address of the first interrupt endpoint with data going the given way.
    pub fn interrupt_endpoint(&self, flow: Flow) -> (r: Option<u8>)
        ensures
            r == interrupt_address(self.endpoints@, flow),
    {
        let ghost all = self.endpoints@;
        let mut i: usize = 0;
        assert(all.skip(0) =~= all);
        while i < self.endpoints.len()
            invariant
                i <= self.endpoints@.len(),
                all == self.endpoints@,
                interrupt_address(all.skip(i as int), flow) == interrupt_address(all, flow),
            decreases self.endpoints@.len() - i,
        {
            assert(all.skip(i as int).drop_first() =~= all.skip(i + 1));
            let ep: Endpoint = self.endpoints[i];
            if ep.transfer == Transfer::Interrupt && ep.flow == flow {
                return Some(ep.address);
            }
            i = i + 1;
        }
        None
    }
}

/// The number and the interrupt endpoints, in and out, of the first interface that has
/// both; none where no interface has.
pub fn find_interrupt_endpoints(interfaces: &[Interface]) -> (r: Option<(u8, u8, u8)>)
    ensures
        r == interrupt_interface(interfaces@),
{
    let ghost all = interfaces@;
    let mut i: usize = 0;
    assert(all.skip(0) =~= all);
    while i < interfaces.len()
        invariant
            i <= interfaces@.len(),
            all == interfaces@,
            interrupt_interface(all.skip(i as int)) == interrupt_interface(all),
        decreases interfaces@.len() - i,
    {
        assert(all.skip(i as int).drop_first() =~= all.skip(i + 1));
        let ep_in: Option<u8> = interfaces[i].interrupt_endpoint(Flow::In);
        let ep_out: Option<u8> = interfaces[i].interrupt_endpoint(Flow::Out);
        if let (Some(in_ep), Some(out_ep)) = (ep_in, ep_out) {
            return Some((interfaces[i].number, in_ep, out_ep));
        }
        i = i + 1;
    }
    None
}

/// The configuration to select: the active one, or the first where none is known.
pub open spec fn configuration_spec(active: Option<u8>) -> u8 {
    match active {
        Some(number) => number,
        None => 1,
    }
}

/// The configuration to select: the active one, or the first where none is known.
#[verifier::when_used_as_spec(configuration_spec)]
pub fn configuration_to_select(active: Option<u8>) -> (r: u8)
    ensures
        r == configuration_spec(active),
        r == match active {
            Some(number) => number,
            None => 1,
        },
{
    match active {
        Some(number) => number,
        None => 1,
    }
}

/// Whether the interface has interrupt endpoints for both ways.
pub open spec fn has_both(interface: Interface) -> bool {
    interrupt_address(interface.endpoints@, Flow::In) is Some && interrupt_address(
        interface.endpoints@,
        Flow::Out,
    ) is Some
}

/// Whether the interface at `i` is the first with interrupt endpoints for both ways.
pub open spec fn is_first_with_both(interfaces: Seq<Interface>, i: int) -> bool {
    &&& 0 <= i < interfaces.len()
    &&& has_both(interfaces[i])
    &&& forall|j: int| 0 <= j < i ==> !has_both(#[trigger] interfaces[j])
}

/// Whether the endpoint at `i` is the first interrupt endpoint with data going the given
/// way.
pub open spec fn is_first_interrupt(endpoints: Seq<Endpoint>, flow: Flow, i: int) -> bool {
    &&& 0 <= i < endpoints.len()
    &&& endpoints[i].interrupts(flow)
    &&& forall|j: int| 0 <= j < i ==> !(#[trigger] endpoints[j]).interrupts(flow)
}

/// What is found is the first interface with interrupt endpoints for both ways; nothing
/// is found if and only if no interface has both.
pub proof fn law_first_interface_is_found(interfaces: Seq<Interface>)
    ensures
        match interrupt_interface(interfaces) {
            Some(found) => exists|i: int|
                #[trigger]
                is_first_with_both(interfaces, i) && found.0 == interfaces[i].number && Some(
                    found.1,
                ) == interrupt_address(interfaces[i].endpoints@, Flow::In) && Some(found.2)
                    == interrupt_address(interfaces[i].endpoints@, Flow::Out),
            None => forall|i: int| 0 <= i < interfaces.len() ==> !has_both(#[trigger] interfaces[i]),
        },
    decreases interfaces.len(),
{
    if interfaces.len() > 0 {
        let rest = interfaces.drop_first();
        law_first_interface_is_found(rest);
        if has_both(interfaces[0]) {
            assert(is_first_with_both(interfaces, 0));
        } else {
            assert forall|i: int| 0 < i < interfaces.len() implies #[trigger] interfaces[i]
                == rest[i - 1] by {}
            if let Some(found) = interrupt_interface(rest) {
                let k = choose|k: int|
                    #[trigger]
                    is_first_with_both(rest, k) && found.0 == rest[k].number && Some(found.1)
                        == interrupt_address(rest[k].endpoints@, Flow::In) && Some(found.2)
                        == interrupt_address(rest[k].endpoints@, Flow::Out);
                assert(is_first_with_both(interfaces, k + 1));
            }
        }
    }
}

/// The address found is that of the first interrupt endpoint with data going the given
/// way; none is found if and only if there is none.
pub proof fn law_first_endpoint_is_found(endpoints: Seq<Endpoint>, flow: Flow)
    ensures
        match interrupt_address(endpoints, flow) {
            Some(address) => exists|i: int|
                #[trigger]
                is_first_interrupt(endpoints, flow, i) && endpoints[i].address == address,
            None => forall|i: int|
                0 <= i < endpoints.len() ==> !(#[trigger] endpoints[i]).interrupts(flow),
        },
    decreases endpoints.len(),
{
    if endpoints.len() > 0 {
        let rest = endpoints.drop_first();
        law_first_endpoint_is_found(rest, flow);
        if endpoints[0].interrupts(flow) {
            assert(is_first_interrupt(endpoints, flow, 0));
        } else {
            assert forall|i: int| 0 < i < endpoints.len() implies #[trigger] endpoints[i]
                == rest[i - 1] by {}
            if let Some(address) = interrupt_address(rest, flow) {
                let k = choose|k: int|
                    #[trigger]
                    is_first_interrupt(rest, flow, k) && rest[k].address == address;
                assert(is_first_interrupt(endpoints, flow, k + 1));
            }
        }
    }
}

/// Whether data goes the given way through interrupt transfers at the endpoint.
pub open spec fn is_interrupt(e: Endpoint, flow: Flow) -> bool {
    e.transfer == Transfer::Interrupt && e.flow == flow
}

/// What is found, in terms of the endpoints: an interface is found if and only if one has
/// an interrupt endpoint for each way. It is the first such one, and its two endpoints are
/// the first for their way, wherever among the others they stand.
pub proof fn law_endpoints_are_found(interfaces: Seq<Interface>, i: int, j: int, k: int)
    requires
        0 <= i < interfaces.len(),
        0 <= j < interfaces[i].endpoints@.len(),
        0 <= k < interfaces[i].endpoints@.len(),
        is_interrupt(interfaces[i].endpoints@[j], Flow::In),
        is_interrupt(interfaces[i].endpoints@[k], Flow::Out),
        forall|a: int| 0 <= a < j ==> !is_interrupt(interfaces[i].endpoints@[a], Flow::In),
        forall|a: int| 0 <= a < k ==> !is_interrupt(interfaces[i].endpoints@[a], Flow::Out),
        forall|b: int|
            0 <= b < i ==> lacks(#[trigger] interfaces[b], Flow::In) || lacks(
                interfaces[b],
                Flow::Out,
            ),
    ensures
        interrupt_interface(interfaces) == Some(
            (
                interfaces[i].number,
                interfaces[i].endpoints@[j].address,
                interfaces[i].endpoints@[k].address,
            ),
        ),
    decreases interfaces.len(),
{
    if i == 0 {
        lemma_address(interfaces[0].endpoints@, Flow::In, j);
        lemma_address(interfaces[0].endpoints@, Flow::Out, k);
    } else {
        let rest = interfaces.drop_first();
        lemma_no_address(interfaces[0], Flow::In);
        lemma_no_address(interfaces[0], Flow::Out);
        assert(rest[i - 1] == interfaces[i]);
        assert forall|b: int| 0 <= b < i - 1 implies lacks(#[trigger] rest[b], Flow::In) || lacks(
            rest[b],
            Flow::Out,
        ) by {
            assert(rest[b] == interfaces[b + 1]);
        }
        law_endpoints_are_found(rest, i - 1, j, k);
    }
}

/// Whether the interface has no interrupt endpoint for the given way.
pub open spec fn lacks(interface: Interface, flow: Flow) -> bool {
    forall|a: int|
        0 <= a < interface.endpoints@.len() ==> !is_interrupt(
            #[trigger] interface.endpoints@[a],
            flow,
        )
}

/// Nothing is found where every interface lacks an interrupt endpoint for one of the ways.
pub proof fn law_nothing_is_found(interfaces: Seq<Interface>)
    requires
        forall|b: int|
            0 <= b < interfaces.len() ==> lacks(#[trigger] interfaces[b], Flow::In) || lacks(
                interfaces[b],
                Flow::Out,
            ),
    ensures
        interrupt_interface(interfaces) is None,
    decreases interfaces.len(),
{
    if interfaces.len() > 0 {
        let rest = interfaces.drop_first();
        lemma_no_address(interfaces[0], Flow::In);
        lemma_no_address(interfaces[0], Flow::Out);
        assert forall|b: int| 0 <= b < rest.len() implies lacks(#[trigger] rest[b], Flow::In)
            || lacks(rest[b], Flow::Out) by {
            assert(rest[b] == interfaces[b + 1]);
        }
        law_nothing_is_found(rest);
    }
}

proof fn lemma_address(endpoints: Seq<Endpoint>, flow: Flow, j: int)
    requires
        0 <= j < endpoints.len(),
        is_interrupt(endpoints[j], flow),
        forall|a: int| 0 <= a < j ==> !is_interrupt(endpoints[a], flow),
    ensures
        interrupt_address(endpoints, flow) == Some(endpoints[j].address),
    decreases endpoints.len(),
{
    if j > 0 {
        let rest = endpoints.drop_first();
        assert(!is_interrupt(endpoints[0], flow));
        assert forall|a: int| 0 <= a < j - 1 implies !is_interrupt(rest[a], flow) by {
            assert(rest[a] == endpoints[a + 1]);
        }
        lemma_address(rest, flow, j - 1);
    }
}

proof fn lemma_no_address(interface: Interface, flow: Flow)
    ensures
        lacks(interface, flow) ==> interrupt_address(interface.endpoints@, flow) is None,
{
    if lacks(interface, flow) {
        law_first_endpoint_is_found(interface.endpoints@, flow);
        if let Some(address) = interrupt_address(interface.endpoints@, flow) {
            let i = choose|i: int|
                #[trigger]
                is_first_interrupt(interface.endpoints@, flow, i) && interface.endpoints@[i].address
                    == address;
            assert(is_interrupt(interface.endpoints@[i], flow));
        }
    }
}

/// The endpoint found for a way, in terms of the endpoints: the first one for that way, and
/// none where there is none.
pub proof fn law_endpoint_is_found(interface: Interface, flow: Flow, j: int)
    ensures
        lacks(interface, flow) ==> interrupt_address(interface.endpoints@, flow) is None,
        0 <= j < interface.endpoints@.len() && is_interrupt(interface.endpoints@[j], flow) && (
        forall|a: int| 0 <= a < j ==> !is_interrupt(interface.endpoints@[a], flow))
            ==> interrupt_address(interface.endpoints@, flow) == Some(
            interface.endpoints@[j].address,
        ),
{
    lemma_no_address(interface, flow);
    if 0 <= j < interface.endpoints@.len() && is_interrupt(interface.endpoints@[j], flow) && (
    forall|a: int| 0 <= a < j ==> !is_interrupt(interface.endpoints@[a], flow)) {
        lemma_address(interface.endpoints@, flow, j);
    }
}

/// An active configuration stays, whichever it is; where none is, the first is taken.
pub proof fn law_configuration(number: u8)
    ensures
        configuration_to_select(Some(number)) == number,
        configuration_to_select(None) == 1,
{
}

} // verus!
