use vstd::prelude::*;
use crate::interop::{
    CBuffer, cstr_image, cstr_payloads,
    lemma_addr_vec_deep_view, lemma_byte_vecs_deep_view, lemma_payloads_size_nonneg,
    lemma_payloads_size_prefix, lemma_payloads_size_snoc, lemma_payloads_size_uniform,
    lemma_splice_chain, lemma_subrange_of_head, lemma_subrange_of_tail, lemma_table_image_len,
    lemma_table_payloads, no_nul_each, payload_off, payloads_size, table_image, table_size,
    SLOT_SIZE,
};

verus! {

/// The numeric tag for "no particular address family" (`AF_UNSPEC`).
pub const AF_UNSPEC_TAG: i32 = 0;

/// The numeric tag for the IPv4 address family (`AF_INET`).
pub const AF_INET_TAG: i32 = 2;

/// The numeric tag for the IPv6 address family (`AF_INET6`).
pub const AF_INET6_TAG: i32 = 10;

/// Relies on libc::AF_INET, the IPv4 address-family constant: 2 on Linux.
#[verifier::external_body]
fn af_inet() -> (r: i32)
    ensures
        r == AF_INET_TAG,
{
    libc::AF_INET
}

/// Relies on libc::AF_INET6, the IPv6 address-family constant: 10 on Linux.
#[verifier::external_body]
fn af_inet6() -> (r: i32)
    ensures
        r == AF_INET6_TAG,
{
    libc::AF_INET6
}

/// Relies on libc::AF_UNSPEC, the unspecified address-family constant: 0 on
/// Linux.
#[verifier::external_body]
fn af_unspec() -> (r: i32)
    ensures
        r == AF_UNSPEC_TAG,
{
    libc::AF_UNSPEC
}

/// An address-family hint for name lookups.
#[derive(PartialEq, Eq, Structural)]
pub enum AddressFamily {
    IPv4,
    IPv6,
    Unspecified,
}

/// A record's addresses: all of one family, as raw fixed-width bytes.
pub enum Addresses {
    V4(Vec<[u8; 4]>),
    V6(Vec<[u8; 16]>),
}

/// One raw network address with its family made explicit.
pub enum IpAddress {
    V4([u8; 4]),
    V6([u8; 16]),
}

/// One directory entry: primary name, aliases, single-family address list.
/// Text values are UTF-8 bytes without the terminating NUL.
pub struct Host {
    pub name: Vec<u8>,
    pub aliases: Vec<Vec<u8>>,
    pub addresses: Addresses,
}

/// The header structure populated for the foreign caller.  Pointer fields
/// hold byte offsets into the arena that the record was marshalled into.
#[derive(Debug)]
pub struct CHost {
    pub name: usize,
    pub h_aliases: usize,
    pub h_addrtype: i32,
    pub h_length: i32,
    pub h_addr_list: usize,
}

impl Addresses {
    /// Number of addresses in the record.
    pub open spec fn count(self) -> int {
        match self {
            Addresses::V4(v) => v@.len() as int,
            Addresses::V6(v) => v@.len() as int,
        }
    }

    /// Byte width of each address: 4 for IPv4, 16 for IPv6.
    pub open spec fn width(self) -> int {
        match self {
            Addresses::V4(_) => 4,
            Addresses::V6(_) => 16,
        }
    }

    /// The address-family tag written into the header.
    pub open spec fn family_tag(self) -> int {
        match self {
            Addresses::V4(_) => AF_INET_TAG as int,
            Addresses::V6(_) => AF_INET6_TAG as int,
        }
    }

    /// The raw bytes of each address, in record order.
    pub open spec fn payloads(self) -> Seq<Seq<u8>> {
        match self {
            Addresses::V4(v) => v.deep_view(),
            Addresses::V6(v) => v.deep_view(),
        }
    }
}

impl Host {
    /// Every text value in the record can be NUL-terminated: no embedded NUL.
    pub open spec fn marshals(self) -> bool {
        &&& !self.name@.contains(0u8)
        &&& no_nul_each(self.aliases.deep_view())
    }

    /// Arena bytes this record needs: the NUL-terminated name, the alias
    /// pointer table, and the address pointer table.
    pub open spec fn required_bytes(self) -> int {
        self.name@.len() + 1 + table_size(cstr_payloads(self.aliases.deep_view())) + table_size(
            self.addresses.payloads(),
        )
    }

    /// Arena offset of the alias pointer array when the record is marshalled
    /// at offset `p0`.
    pub open spec fn alias_table_off(self, p0: int) -> int {
        p0 + self.name@.len() + 1
    }

    /// Arena offset of the address pointer array when the record is
    /// marshalled at offset `p0`.
    pub open spec fn addr_table_off(self, p0: int) -> int {
        self.alias_table_off(p0) + table_size(cstr_payloads(self.aliases.deep_view()))
    }

    /// The exact bytes marshalling writes when the record goes in at arena
    /// offset `p0`: the NUL-terminated name, then the alias pointer table,
    /// then the address pointer table.
    pub open spec fn image(self, p0: int) -> Seq<u8> {
        cstr_image(self.name@) + table_image(
            cstr_payloads(self.aliases.deep_view()),
            self.alias_table_off(p0),
        ) + table_image(self.addresses.payloads(), self.addr_table_off(p0))
    }

    /// The record's image occupies exactly `required_bytes`.
    pub proof fn lemma_image_len(self, p0: int)
        ensures
            self.image(p0).len() == self.required_bytes(),
    {
        lemma_table_image_len(cstr_payloads(self.aliases.deep_view()), self.alias_table_off(p0));
        lemma_table_image_len(self.addresses.payloads(), self.addr_table_off(p0));
    }

    /// Marshal one record: write the name NUL-terminated, the alias pointer
    /// table, and the address pointer table into the arena, and fill the
    /// header with the offsets, the family tag and the address byte width.
    /// A record that does not fit, or text with an embedded NUL, is a caller
    /// contract violation and is excluded up front.
    pub fn to_c_hostent(self, hostent: &mut CHost, buffer: &mut CBuffer)
        requires
            old(buffer).wf(),
            self.marshals(),
            self.required_bytes() <= old(buffer).free(),
        ensures
            final(buffer).wf(),
            final(buffer).pos == old(buffer).pos + self.required_bytes(),
            final(buffer).data@.len() == old(buffer).data@.len(),
            final(buffer).data@ == old(buffer).data@.take(old(buffer).pos as int) + self.image(
                old(buffer).pos as int,
            ) + old(buffer).data@.skip(old(buffer).pos + self.required_bytes()),
            final(hostent).name == old(buffer).pos,
            final(hostent).h_aliases == self.alias_table_off(old(buffer).pos as int),
            final(hostent).h_addr_list == self.addr_table_off(old(buffer).pos as int),
            final(hostent).h_addrtype == self.addresses.family_tag(),
            final(hostent).h_length == self.addresses.width(),
    {
        let ghost p0 = buffer.pos as int;
        let ghost d0 = buffer.data@;
        let ghost aps = cstr_payloads(self.aliases.deep_view());
        let ghost xps = self.addresses.payloads();
        proof {
            lemma_payloads_size_nonneg(aps);
            lemma_payloads_size_nonneg(xps);
        }
        let name_off = buffer.write_str(&self.name);
        hostent.name = name_off;
        let ghost d1 = buffer.data@;
        let alias_off = buffer.write_strs(&self.aliases);
        hostent.h_aliases = alias_off;
        proof {
            lemma_table_image_len(aps, self.alias_table_off(p0));
            lemma_splice_chain(
                d0,
                d1,
                buffer.data@,
                p0,
                cstr_image(self.name@),
                table_image(aps, self.alias_table_off(p0)),
            );
        }
        let ghost d2 = buffer.data@;
        match &self.addresses {
            Addresses::V4(addrs) => {
                hostent.h_addrtype = af_inet();
                hostent.h_length = 4;
                let addr_off = buffer.write_addr_table(addrs);
                hostent.h_addr_list = addr_off;
            },
            Addresses::V6(addrs) => {
                hostent.h_addrtype = af_inet6();
                hostent.h_length = 16;
                let addr_off = buffer.write_addr_table(addrs);
                hostent.h_addr_list = addr_off;
            },
        }
        proof {
            lemma_table_image_len(xps, self.addr_table_off(p0));
            lemma_splice_chain(
                d0,
                d2,
                buffer.data@,
                p0,
                cstr_image(self.name@) + table_image(aps, self.alias_table_off(p0)),
                table_image(xps, self.addr_table_off(p0)),
            );
            assert(buffer.data@ =~= d0.take(p0) + self.image(p0) + d0.skip(
                p0 + self.required_bytes(),
            ));
        }
    }

    /// Compute the exact number of arena bytes this record needs.
    pub fn required_size(&self) -> (r: usize)
        requires
            self.required_bytes() <= usize::MAX,
        ensures
            r == self.required_bytes(),
    {
        let ghost aps = cstr_payloads(self.aliases.deep_view());
        let ghost xps = self.addresses.payloads();
        proof {
            lemma_payloads_size_nonneg(aps);
            lemma_payloads_size_nonneg(xps);
            lemma_byte_vecs_deep_view(self.aliases);
        }
        let k = self.aliases.len();
        let mut total: usize = self.name.len() + 1;
        total = total + SLOT_SIZE * (k + 1);
        let mut i: usize = 0;
        while i < k
            invariant
                k == self.aliases@.len(),
                aps == cstr_payloads(self.aliases.deep_view()),
                aps.len() == k,
                forall|j: int|
                    0 <= j < k ==> (#[trigger] aps[j]) == cstr_image(self.aliases@[j]@),
                i <= k,
                total == self.name@.len() + 1 + SLOT_SIZE * (k + 1) + payloads_size(
                    aps.take(i as int),
                ),
                self.required_bytes() <= usize::MAX,
                xps == self.addresses.payloads(),
                payloads_size(xps) >= 0,
            decreases k - i,
        {
            proof {
                lemma_payloads_size_prefix(aps, i as int);
                lemma_payloads_size_snoc(aps, i as int);
                lemma_payloads_size_prefix(aps, i + 1);
                assert(aps[i as int] == cstr_image(self.aliases@[i as int]@));
                assert(aps[i as int].len() == self.aliases@[i as int]@.len() + 1);
                assert(table_size(xps) >= 0);
                assert(self.required_bytes() == self.name@.len() + 1 + SLOT_SIZE * (k + 1)
                    + payloads_size(aps) + table_size(xps));
                assert(total + aps[i as int].len() <= self.required_bytes());
            }
            total = total + (self.aliases[i].len() + 1);
            i = i + 1;
        }
        proof {
            assert(aps.take(k as int) =~= aps);
        }
        match &self.addresses {
            Addresses::V4(addrs) => {
                proof {
                    lemma_addr_vec_deep_view(*addrs);
                    lemma_payloads_size_uniform(xps, 4);
                }
                total + SLOT_SIZE * (addrs.len() + 1) + 4 * addrs.len()
            },
            Addresses::V6(addrs) => {
                proof {
                    lemma_addr_vec_deep_view(*addrs);
                    lemma_payloads_size_uniform(xps, 16);
                }
                total + SLOT_SIZE * (addrs.len() + 1) + 16 * addrs.len()
            },
        }
    }

    /// Marshal one record after checking that it can be marshalled: returns
    /// `false`, leaving the header and the arena untouched, where a text
    /// value holds an embedded NUL or the record does not fit in the arena's
    /// remaining capacity; otherwise marshals as `to_c_hostent` and returns
    /// `true`.
    pub fn try_to_c_hostent(self, hostent: &mut CHost, buffer: &mut CBuffer) -> (ok: bool)
        requires
            old(buffer).wf(),
            self.required_bytes() <= usize::MAX,
        ensures
            ok == (self.marshals() && self.required_bytes() <= old(buffer).free()),
            ok ==> {
                &&& final(buffer).wf()
                &&& final(buffer).pos == old(buffer).pos + self.required_bytes()
                &&& final(buffer).data@ == old(buffer).data@.take(old(buffer).pos as int)
                    + self.image(old(buffer).pos as int) + old(buffer).data@.skip(
                    old(buffer).pos + self.required_bytes(),
                )
                &&& final(hostent).name == old(buffer).pos
                &&& final(hostent).h_aliases == self.alias_table_off(old(buffer).pos as int)
                &&& final(hostent).h_addr_list == self.addr_table_off(old(buffer).pos as int)
                &&& final(hostent).h_addrtype == self.addresses.family_tag()
                &&& final(hostent).h_length == self.addresses.width()
            },
            !ok ==> *final(buffer) == *old(buffer) && *final(hostent) == *old(hostent),
    {
        if has_nul(&self.name) || any_nul(&self.aliases) {
            return false;
        }
        let size = self.required_size();
        if size > buffer.free_bytes() {
            return false;
        }
        self.to_c_hostent(hostent, buffer);
        true
    }
}

/// Whether the byte string holds a NUL.
fn has_nul(v: &Vec<u8>) -> (r: bool)
    ensures
        r == v@.contains(0u8),
{
    let n = v.len();
    let mut i: usize = 0;
    while i < n
        invariant
            n == v@.len(),
            i <= n,
            forall|j: int| 0 <= j < i ==> v@[j] != 0u8,
        decreases n - i,
    {
        if v[i] == 0 {
            return true;
        }
        i = i + 1;
    }
    false
}

/// Whether any byte string in the list holds a NUL.
fn any_nul(vs: &Vec<Vec<u8>>) -> (r: bool)
    ensures
        r == !no_nul_each(vs.deep_view()),
{
    proof {
        lemma_byte_vecs_deep_view(*vs);
    }
    let n = vs.len();
    let mut i: usize = 0;
    while i < n
        invariant
            n == vs@.len(),
            vs.deep_view().len() == n,
            forall|j: int| 0 <= j < n ==> #[trigger] vs.deep_view()[j] == vs@[j]@,
            i <= n,
            forall|j: int| 0 <= j < i ==> !(#[trigger] vs@[j]@).contains(0u8),
        decreases n - i,
    {
        if has_nul(&vs[i]) {
            proof {
                assert(vs.deep_view()[i as int].contains(0u8));
            }
            return true;
        }
        i = i + 1;
    }
    false
}

/// What interpreting raw address bytes under a family tag must yield: the
/// bytes as an address of that family where length and family agree (4-byte
/// IPv4, 16-byte IPv6), and nothing otherwise.
pub open spec fn addr_matches_raw(r: Option<IpAddress>, bytes: Seq<u8>, family: int) -> bool {
    match r {
        Some(IpAddress::V4(a)) => family == AF_INET_TAG && bytes.len() == 4 && a@ == bytes,
        Some(IpAddress::V6(a)) => family == AF_INET6_TAG && bytes.len() == 16 && a@ == bytes,
        None => !((family == AF_INET_TAG && bytes.len() == 4) || (family == AF_INET6_TAG
            && bytes.len() == 16)),
    }
}

/// Interpret raw address bytes under a family tag.  Any length/family
/// combination other than 4 bytes tagged IPv4 or 16 bytes tagged IPv6 is
/// rejected with `None`: a mismatch is a recoverable not-found outcome,
/// never a fatal one.
pub fn addr_from_raw(bytes: &Vec<u8>, family: i32) -> (r: Option<IpAddress>)
    ensures
        addr_matches_raw(r, bytes@, family as int),
{
    let fam4 = af_inet();
    let fam6 = af_inet6();
    if family == fam4 && bytes.len() == 4 {
        let a: [u8; 4] = [bytes[0], bytes[1], bytes[2], bytes[3]];
        proof {
            assert(a@ =~= bytes@);
        }
        Some(IpAddress::V4(a))
    } else if family == fam6 && bytes.len() == 16 {
        let a: [u8; 16] = [
            bytes[0],
            bytes[1],
            bytes[2],
            bytes[3],
            bytes[4],
            bytes[5],
            bytes[6],
            bytes[7],
            bytes[8],
            bytes[9],
            bytes[10],
            bytes[11],
            bytes[12],
            bytes[13],
            bytes[14],
            bytes[15],
        ];
        proof {
            assert(a@ =~= bytes@);
        }
        Some(IpAddress::V6(a))
    } else {
        None
    }
}

/// The lookup family asked for by a numeric family tag: IPv4, IPv6, or
/// unspecified (try IPv4 then IPv6); any other tag is rejected.
pub open spec fn spec_family_from_c(family: int) -> Option<AddressFamily> {
    if family == AF_INET_TAG {
        Some(AddressFamily::IPv4)
    } else if family == AF_INET6_TAG {
        Some(AddressFamily::IPv6)
    } else if family == AF_UNSPEC_TAG {
        Some(AddressFamily::Unspecified)
    } else {
        None
    }
}

/// Decode a numeric family tag into a lookup family.
pub fn family_from_c(family: i32) -> (r: Option<AddressFamily>)
    ensures
        r == spec_family_from_c(family as int),
{
    if family == af_inet() {
        Some(AddressFamily::IPv4)
    } else if family == af_inet6() {
        Some(AddressFamily::IPv6)
    } else if family == af_unspec() {
        Some(AddressFamily::Unspecified)
    } else {
        None
    }
}

impl Addresses {
    /// Address `i` of the record, with its family made explicit.
    pub open spec fn address_at(self, i: int) -> IpAddress {
        match self {
            Addresses::V4(v) => IpAddress::V4(v@[i]),
            Addresses::V6(v) => IpAddress::V6(v@[i]),
        }
    }
}

impl Host {
    /// The arena offset of address `i`'s raw bytes when the record is
    /// marshalled at offset `p0`.
    pub open spec fn addr_off(self, p0: int, i: int) -> int {
        payload_off(self.addresses.payloads(), self.addr_table_off(p0), i)
    }

    /// Where everything lies in a marshalled record: the NUL-terminated name
    /// first, then the alias pointer table, then the address pointer table,
    /// each table shaped as `lemma_table_slots`, `lemma_table_sentinel` and
    /// `lemma_table_payloads` state: one slot per item holding the item's
    /// arena offset, a zero sentinel slot after them, every item's bytes
    /// inside the marshalled span.
    pub proof fn lemma_marshal_layout(self, p0: int)
        ensures
            self.image(p0).len() == self.required_bytes(),
            self.image(p0).subrange(0, self.name@.len() + 1 as int) == cstr_image(self.name@),
            self.image(p0).subrange(
                self.alias_table_off(p0) - p0,
                self.addr_table_off(p0) - p0,
            ) == table_image(cstr_payloads(self.aliases.deep_view()), self.alias_table_off(p0)),
            self.image(p0).subrange(
                self.addr_table_off(p0) - p0,
                self.required_bytes() as int,
            ) == table_image(self.addresses.payloads(), self.addr_table_off(p0)),
    {
        let nm = cstr_image(self.name@);
        let ta = table_image(cstr_payloads(self.aliases.deep_view()), self.alias_table_off(p0));
        let tx = table_image(self.addresses.payloads(), self.addr_table_off(p0));
        self.lemma_image_len(p0);
        lemma_table_image_len(cstr_payloads(self.aliases.deep_view()), self.alias_table_off(p0));
        lemma_table_image_len(self.addresses.payloads(), self.addr_table_off(p0));
        lemma_payloads_size_nonneg(cstr_payloads(self.aliases.deep_view()));
        lemma_payloads_size_nonneg(self.addresses.payloads());
        assert(self.image(p0) == (nm + ta) + tx);
        lemma_subrange_of_head(nm + ta, tx, 0, nm.len() as int);
        lemma_subrange_of_head(nm, ta, 0, nm.len() as int);
        assert(nm.subrange(0, nm.len() as int) =~= nm);
        lemma_subrange_of_head(nm + ta, tx, nm.len() as int, (nm.len() + ta.len()) as int);
        lemma_subrange_of_tail(nm, ta, 0, ta.len() as int);
        assert(ta.subrange(0, ta.len() as int) =~= ta);
        lemma_subrange_of_tail(nm + ta, tx, 0, tx.len() as int);
        assert(tx.subrange(0, tx.len() as int) =~= tx);
    }

    /// Marshalling writes the same bytes both times: after zeroing, putting
    /// the same record at the same position in two regions of one size
    /// leaves identical contents, so repeating clear-then-marshal yields
    /// byte-identical output.
    pub proof fn lemma_marshal_deterministic(self, d1: Seq<u8>, d2: Seq<u8>, p0: int)
        requires
            d1.len() == d2.len(),
            forall|j: int| 0 <= j < d1.len() ==> d1[j] == 0u8,
            forall|j: int| 0 <= j < d2.len() ==> d2[j] == 0u8,
            0 <= p0,
            p0 + self.required_bytes() <= d1.len(),
        ensures
            d1.take(p0) + self.image(p0) + d1.skip(p0 + self.required_bytes()) == d2.take(p0)
                + self.image(p0) + d2.skip(p0 + self.required_bytes()),
    {
        assert(d1 =~= d2);
    }

    /// An address marshalled as raw bytes, reinterpreted under the record's
    /// declared family tag and byte width, reconstructs the original address
    /// exactly.
    pub proof fn lemma_address_round_trip(self, p0: int, i: int)
        requires
            0 <= i < self.addresses.count(),
        ensures
            self.image(p0).subrange(
                self.addr_off(p0, i) - p0,
                self.addr_off(p0, i) - p0 + self.addresses.width(),
            ) == self.addresses.payloads()[i],
            addr_matches_raw(
                Some(self.addresses.address_at(i)),
                self.addresses.payloads()[i],
                self.addresses.family_tag(),
            ),
    {
        let nm = cstr_image(self.name@);
        let ta = table_image(cstr_payloads(self.aliases.deep_view()), self.alias_table_off(p0));
        let tx = table_image(self.addresses.payloads(), self.addr_table_off(p0));
        let xps = self.addresses.payloads();
        let atoff = self.addr_table_off(p0);
        match self.addresses {
            Addresses::V4(v) => {
                lemma_addr_vec_deep_view(v);
            },
            Addresses::V6(v) => {
                lemma_addr_vec_deep_view(v);
            },
        }
        assert(xps[i].len() == self.addresses.width());
        lemma_table_image_len(cstr_payloads(self.aliases.deep_view()), self.alias_table_off(p0));
        lemma_table_image_len(xps, atoff);
        lemma_table_payloads(xps, atoff);
        lemma_payloads_size_nonneg(cstr_payloads(self.aliases.deep_view()));
        assert(self.image(p0) == (nm + ta) + tx);
        assert((nm + ta).len() == atoff - p0);
        lemma_subrange_of_tail(
            nm + ta,
            tx,
            self.addr_off(p0, i) - atoff,
            self.addr_off(p0, i) - atoff + self.addresses.width(),
        );
    }
}

/// Hooks a backing directory implements to serve host lookups.
pub trait HostHooks {
    /// Every record, for a full enumeration scan.
    fn get_all_entries() -> Vec<Host>;

    /// Zero or one record matching a primary name or alias, under an
    /// address-family hint.
    fn get_host_by_name(name: &Vec<u8>, family: AddressFamily) -> Option<Host>;

    /// Zero or one record matching a network address.
    fn get_host_by_addr(addr: IpAddress) -> Option<Host>;
}

} // verus!
