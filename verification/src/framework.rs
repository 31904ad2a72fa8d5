//! What a host supplies to the router: the types of its addresses and links,
//! and the system that signs and validates what travels between nodes.
use crate::concepts::packet::{same_packet, Packet};
use crate::concepts::route::Source;
use vstd::prelude::*;

verus! {

/// Data that the router stores and hands on: it can be copied faithfully.
pub trait RootData: Sized {
    /// A copy that is indistinguishable from the original.
    fn duplicate(&self) -> (c: Self)
        ensures
            c == *self,
    ;
}

/// Data that the router keys its tables by: two values can be compared, and
/// the comparison decides whether they are the same value.
///
/// The library implements this trait, and `RootData`, for `u8`, `u16`, `u32`,
/// `u64`, `usize`, `i32` and `i64`. A type such as `String` has no impl here:
/// its `==` is known to compare what two strings read as, not whether they
/// are the same value, so the contract of `same` cannot be proved for it.
/// A host that wants names for addresses maps them to numbers, or implements
/// the trait for its own type outside of verified code and answers for the
/// contract itself.
pub trait RootKey: Sized {
    /// Whether both are the same key.
    fn same(&self, other: &Self) -> (b: bool)
        ensures
            b == (*self == *other),
    ;
}

/// A value together with the mark of the node that signed it.
pub trait MACSignature<V>: Sized {
    /// The value that was signed.
    spec fn signed(&self) -> V;

    /// Reads the signed value.
    fn data(&self) -> (d: &V)
        ensures
            *d == self.signed(),
    ;

    /// The signed value, to be changed in place.
    fn data_mut(&mut self) -> (d: &mut V)
        ensures
            *d == old(self).signed(),
            final(self).signed() == *final(d),
    ;
}

/// Signs the origin pairs and the packets of a node and validates those of
/// others. `A` is the type of the node addresses.
pub trait MACSystem<A>: Sized + Default {
    /// A signed origin pair.
    type SourceMAC: MACSignature<Source<A>> + RootData;

    /// A signed packet.
    type PacketMAC: MACSignature<Packet<A, Self::SourceMAC>>;

    /// Whether `sig` was produced by `subject`.
    spec fn source_valid(&self, sig: &Self::SourceMAC, subject: &A) -> bool;

    /// Whether `sig` was produced by `subject`.
    spec fn packet_valid(&self, sig: &Self::PacketMAC, subject: &A) -> bool;

    /// Signs an origin pair in the name of `signer`. The result holds the
    /// pair and is valid as one of `signer`.
    fn sign_source(&self, data: Source<A>, signer: &A) -> (sig: Self::SourceMAC)
        ensures
            sig.signed() == data,
            self.source_valid(&sig, signer),
    ;

    /// Signs a packet in the name of `signer`. The result holds what was
    /// handed in, every update with the signature it came with, and is valid
    /// as a packet of `signer`.
    fn sign_packet(&self, data: Packet<A, Self::SourceMAC>, signer: &A) -> (sig: Self::PacketMAC)
        ensures
            same_packet(sig.signed(), data),
            sig.signed()@ == data@,
            self.packet_valid(&sig, signer),
    ;

    /// Copies a signed packet for another recipient. The copy holds the same
    /// and is valid as a packet of the same nodes.
    fn copy_packet(&self, sig: &Self::PacketMAC) -> (c: Self::PacketMAC)
        ensures
            same_packet(c.signed(), sig.signed()),
            c.signed()@ == sig.signed()@,
            forall|subject: A| #[trigger]
                self.packet_valid(&c, &subject) == self.packet_valid(sig, &subject),
    ;

    /// Checks that `sig` was produced by `subject`.
    fn validate_source(&self, sig: &Self::SourceMAC, subject: &A) -> (ok: bool)
        ensures
            ok == self.source_valid(sig, subject),
    ;

    /// Checks that `sig` was produced by `subject`.
    fn validate_packet(&self, sig: &Self::PacketMAC, subject: &A) -> (ok: bool)
        ensures
            ok == self.packet_valid(sig, subject),
    ;
}

/// The types that a deployment of the router is built from.
pub trait RoutingSystem: Sized {
    /// How many warnings the router keeps; when the log is full, the oldest
    /// warning is dropped.
    const MAX_WARN_LENGTH: usize = 1000;

    /// Whether the router adopts a requested sequence number that lies more
    /// than one step ahead of its own. Only safe where packets are signed.
    const TRUST_RESYNC_SEQNO: bool = true;

    /// The address of a node on the routing network; globally unique.
    type NodeAddress: RootData + RootKey;

    /// Names one way of this node to talk to one neighbour; unique per node.
    type Link: RootData + RootKey;

    /// Signs and validates packets.
    type MACSystem: MACSystem<Self::NodeAddress>;
}

/// The signed origin pairs of a routing system.
pub type SignedSource<T> = <<T as RoutingSystem>::MACSystem as MACSystem<
    <T as RoutingSystem>::NodeAddress,
>>::SourceMAC;

/// The signed packets of a routing system.
pub type SignedPacket<T> = <<T as RoutingSystem>::MACSystem as MACSystem<
    <T as RoutingSystem>::NodeAddress,
>>::PacketMAC;

/// The packets of a routing system.
pub type PacketOf<T> = Packet<<T as RoutingSystem>::NodeAddress, SignedSource<T>>;

impl RootData for u8 {
    fn duplicate(&self) -> (c: Self) {
        *self
    }
}

impl RootKey for u8 {
    fn same(&self, other: &Self) -> (b: bool) {
        *self == *other
    }
}

impl RootData for u16 {
    fn duplicate(&self) -> (c: Self) {
        *self
    }
}

impl RootKey for u16 {
    fn same(&self, other: &Self) -> (b: bool) {
        *self == *other
    }
}

impl RootData for u32 {
    fn duplicate(&self) -> (c: Self) {
        *self
    }
}

impl RootKey for u32 {
    fn same(&self, other: &Self) -> (b: bool) {
        *self == *other
    }
}

impl RootData for u64 {
    fn duplicate(&self) -> (c: Self) {
        *self
    }
}

impl RootKey for u64 {
    fn same(&self, other: &Self) -> (b: bool) {
        *self == *other
    }
}

impl RootData for usize {
    fn duplicate(&self) -> (c: Self) {
        *self
    }
}

impl RootKey for usize {
    fn same(&self, other: &Self) -> (b: bool) {
        *self == *other
    }
}

impl RootData for i32 {
    fn duplicate(&self) -> (c: Self) {
        *self
    }
}

impl RootKey for i32 {
    fn same(&self, other: &Self) -> (b: bool) {
        *self == *other
    }
}

impl RootData for i64 {
    fn duplicate(&self) -> (c: Self) {
        *self
    }
}

impl RootKey for i64 {
    fn same(&self, other: &Self) -> (b: bool) {
        *self == *other
    }
}

} // verus!
