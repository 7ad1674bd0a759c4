//! Access permissions of a mapped page, and how a syscall argument encodes them.

use vstd::prelude::*;

verus! {

/// The page may be read.
pub const PERM_R: u8 = 2;

/// The page may be written.
pub const PERM_W: u8 = 4;

/// Instructions may be fetched from the page.
pub const PERM_X: u8 = 8;

/// The page may be accessed from user mode.
pub const PERM_U: u8 = 16;

/// A set of access rights, one bit each.
#[derive(Clone, Copy, PartialEq, Eq, Structural, Debug)]
pub struct MapPermission {
    pub bits: u8,
}

/// Whether `port` is an accepted permission argument: at least one of its three
/// low bits is set and no other bit is.
pub open spec fn valid_port(port: usize) -> bool {
    1 <= port <= 7
}

/// The permission that a valid `port` asks for: bit 0 grants reading, bit 1
/// writing, bit 2 execution, and user access is always granted.
pub open spec fn decode_port(port: usize) -> Option<MapPermission> {
    if valid_port(port) {
        Some(MapPermission::of(port % 2 == 1, (port / 2) % 2 == 1, (port / 4) % 2 == 1, true))
    } else {
        None
    }
}

/// Whether `perm` is what some valid permission argument asks for.
pub open spec fn decoded(perm: MapPermission) -> bool {
    exists|port: usize| valid_port(port) && #[trigger] decode_port(port) == Some(perm)
}

/// A permission that a valid argument asks for grants user access and at
/// least one of reading, writing and execution, and nothing besides.
pub proof fn lemma_decoded_rights(perm: MapPermission)
    requires
        decoded(perm),
    ensures
        perm.user_accessible(),
        perm.readable() || perm.writable() || perm.executable(),
        perm.bits & !30u8 == 0,
{
    let port = choose|port: usize| valid_port(port) && #[trigger] decode_port(port) == Some(perm);
    MapPermission::lemma_of_rights(port % 2 == 1, (port / 2) % 2 == 1, (port / 4) % 2 == 1, true);
}

/// Tests the permission argument of a mapping request.
pub fn port_is_valid(port: usize) -> (b: bool)
    ensures
        b == valid_port(port),
{
    if (port & !0x7) != 0 || (port & 0x7) == 0 {
        assert(!valid_port(port)) by (bit_vector)
            requires
                (port & !0x7) != 0 || (port & 0x7) == 0,
        ;
        false
    } else {
        assert(valid_port(port)) by (bit_vector)
            requires
                !((port & !0x7) != 0 || (port & 0x7) == 0),
        ;
        true
    }
}

impl MapPermission {
    /// The set that holds exactly the rights whose flag is true.
    pub open spec fn of(r: bool, w: bool, x: bool, u: bool) -> MapPermission {
        MapPermission {
            bits: ((if r { 2int } else { 0 }) + (if w { 4int } else { 0 }) + (if x { 8int } else { 0 }) + (if u { 16int } else { 0 })) as u8,
        }
    }

    pub open spec fn readable(self) -> bool {
        self.bits & PERM_R != 0
    }

    pub open spec fn writable(self) -> bool {
        self.bits & PERM_W != 0
    }

    pub open spec fn executable(self) -> bool {
        self.bits & PERM_X != 0
    }

    pub open spec fn user_accessible(self) -> bool {
        self.bits & PERM_U != 0
    }

    /// Whether every right in `need` is in `self`.
    pub open spec fn covers(self, need: MapPermission) -> bool {
        self.bits & need.bits == need.bits
    }

    /// The rights that the kernel needs to store a result in user memory:
    /// reading, writing and user access.
    pub open spec fn spec_user_read_write() -> MapPermission {
        Self::of(true, true, false, true)
    }

    /// The rights that the kernel needs to load a value from user memory:
    /// reading and user access.
    pub open spec fn spec_user_read() -> MapPermission {
        Self::of(true, false, false, true)
    }

    #[verifier::when_used_as_spec(spec_user_read_write)]
    pub fn user_read_write() -> (perm: MapPermission)
        ensures
            perm == Self::spec_user_read_write(),
    {
        MapPermission { bits: 22 }
    }

    #[verifier::when_used_as_spec(spec_user_read)]
    pub fn user_read() -> (perm: MapPermission)
        ensures
            perm == Self::spec_user_read(),
    {
        MapPermission { bits: 18 }
    }

    /// What `of` builds holds the rights it was given and no others.
    pub proof fn lemma_of_rights(r: bool, w: bool, x: bool, u: bool)
        ensures
            Self::of(r, w, x, u).readable() == r,
            Self::of(r, w, x, u).writable() == w,
            Self::of(r, w, x, u).executable() == x,
            Self::of(r, w, x, u).user_accessible() == u,
            Self::of(r, w, x, u).bits & !30u8 == 0,
    {
        let b: u8 = Self::of(r, w, x, u).bits;
        assert(b == 0 || b == 2 || b == 4 || b == 6 || b == 8 || b == 10 || b == 12 || b == 14
            || b == 16 || b == 18 || b == 20 || b == 22 || b == 24 || b == 26 || b == 28 || b == 30);
        assert(b <= 30 && b % 2 == 0 ==> ((b & 2 != 0) == ((b / 2) % 2 == 1)) && ((b & 4 != 0) == ((b
            / 4) % 2 == 1)) && ((b & 8 != 0) == ((b / 8) % 2 == 1)) && ((b & 16 != 0) == (b / 16
            == 1)) && (b & !30u8 == 0)) by (bit_vector);
    }

    /// A set covers another exactly when it has each right that the other has.
    pub proof fn lemma_covers_rights(self, need: MapPermission)
        requires
            need.bits & !30u8 == 0,
        ensures
            self.covers(need) <==> {
                &&& need.readable() ==> self.readable()
                &&& need.writable() ==> self.writable()
                &&& need.executable() ==> self.executable()
                &&& need.user_accessible() ==> self.user_accessible()
            },
    {
        let a: u8 = self.bits;
        let n: u8 = need.bits;
        assert(n & !30u8 == 0 ==> ((a & n == n) <==> ((n & 2 != 0 ==> a & 2 != 0) && (n & 4 != 0
            ==> a & 4 != 0) && (n & 8 != 0 ==> a & 8 != 0) && (n & 16 != 0 ==> a & 16 != 0))))
            by (bit_vector);
    }

    pub fn is_readable(self) -> (b: bool)
        ensures
            b == self.readable(),
    {
        self.bits & PERM_R != 0
    }

    pub fn is_writable(self) -> (b: bool)
        ensures
            b == self.writable(),
    {
        self.bits & PERM_W != 0
    }

    pub fn is_executable(self) -> (b: bool)
        ensures
            b == self.executable(),
    {
        self.bits & PERM_X != 0
    }

    pub fn is_user_accessible(self) -> (b: bool)
        ensures
            b == self.user_accessible(),
    {
        self.bits & PERM_U != 0
    }

    pub fn contains(self, need: MapPermission) -> (b: bool)
        ensures
            b == self.covers(need),
    {
        self.bits & need.bits == need.bits
    }

    /// Decodes the permission argument of a mapping request: bit 0 asks for
    /// reading, bit 1 for writing, bit 2 for execution; user access comes
    /// with each of them.
    pub fn from_port(port: usize) -> (perm: Option<MapPermission>)
        ensures
            perm == decode_port(port),
            perm is Some <==> valid_port(port),
            match perm {
                Some(p) => {
                    &&& p.readable() == (port % 2 == 1)
                    &&& p.writable() == ((port / 2) % 2 == 1)
                    &&& p.executable() == ((port / 4) % 2 == 1)
                    &&& p.user_accessible()
                },
                None => true,
            },
    {
        if !port_is_valid(port) {
            return None;
        }
        let mut bits: u8 = PERM_U;
        if port & 0x1 == 1 {
            bits = bits | PERM_R;
        }
        if (port >> 1) & 0x1 == 1 {
            bits = bits | PERM_W;
        }
        if (port >> 2) & 0x1 == 1 {
            bits = bits | PERM_X;
        }
        proof {
            let r: bool = port & 0x1 == 1;
            let w: bool = (port >> 1) & 0x1 == 1;
            let x: bool = (port >> 2) & 0x1 == 1;
            assert(port <= 7 ==> (r == (port % 2 == 1)) && (w == ((port / 2) % 2 == 1)) && (x == ((
                port / 4) % 2 == 1))) by (bit_vector)
                requires
                    r == (port & 0x1 == 1),
                    w == ((port >> 1) & 0x1 == 1),
                    x == ((port >> 2) & 0x1 == 1),
            ;
            let b0: u8 = 16;
            let b1: u8 = if r { b0 | 2 } else { b0 };
            let b2: u8 = if w { b1 | 4 } else { b1 };
            let b3: u8 = if x { b2 | 8 } else { b2 };
            assert(b3 == bits);
            Self::lemma_of_rights(port % 2 == 1, (port / 2) % 2 == 1, (port / 4) % 2 == 1, true);
            assert(b3 == 16 + (if r { 2int } else { 0 }) + (if w { 4int } else { 0 }) + (if x { 8int } else { 0 })) by {
                assert(16u8 | 2 == 18 && 16u8 | 4 == 20 && 18u8 | 4 == 22 && 16u8 | 8 == 24 && 18u8 | 8 == 26
                    && 20u8 | 8 == 28 && 22u8 | 8 == 30) by (bit_vector);
            }
        }
        Some(MapPermission { bits })
    }
}

} // verus!
